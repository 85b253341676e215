//! The table that gives user variables their solver numbers.

use vstd::prelude::*;
use std::collections::HashMap;
use std::hash::Hash;
use crate::backend::{all_literals, ints, lemma_ints_push};
use crate::lit::{Lit, VarType};

verus! {

broadcast use vstd::std_specs::hash::group_hash_axioms;

/// What a type must offer to serve as a user variable.
pub trait SatVar: std::fmt::Debug + Hash + Eq + Clone {
}

impl<V: std::fmt::Debug + Hash + Eq + Clone> SatVar for V {
}

/// Whether hashing, equality and cloning of `V` behave as on plain values:
/// equal keys are identical, hashes are repeatable, and a clone is identical
/// to its source.
pub open spec fn obeys_var_model<V: Clone>() -> bool {
    &&& vstd::std_specs::hash::obeys_key_model::<V>()
    &&& forall|a: V, b: V| #[trigger] cloned(a, b) ==> a == b
}

/// The solver number of `v` in `names`, or 0 where `v` has none.
///
/// Position `i` of `names` describes solver variable `i + 1`: the user
/// variable it stands for, or `None` for an anonymous one.
pub open spec fn id_of<V>(names: Seq<Option<V>>, v: V) -> int
    decreases names.len(),
{
    if names.len() == 0 {
        0
    } else if names.last() == Some(v) {
        names.len() as int
    } else {
        id_of(names.drop_last(), v)
    }
}

/// `names` after `v` was given a number, if it had none.
pub open spec fn with_name<V>(names: Seq<Option<V>>, v: V) -> Seq<Option<V>> {
    if id_of(names, v) != 0 {
        names
    } else {
        names.push(Some(v))
    }
}

/// `names` after the variable of `lit` was given a number, if it had none.
pub open spec fn with_lit<V>(names: Seq<Option<V>>, lit: VarType<V>) -> Seq<Option<V>> {
    match lit {
        VarType::Named(l) => with_name(names, l.spec_var()),
        VarType::Unnamed(_) => names,
    }
}

/// The signed solver literal that stands for `lit` once its variable has a
/// number; 0 where a named variable has none.
pub open spec fn lit_id<V>(names: Seq<Option<V>>, lit: VarType<V>) -> int {
    match lit {
        VarType::Named(Lit::Pos(v)) => id_of(names, v),
        VarType::Named(Lit::Neg(v)) => -id_of(names, v),
        VarType::Unnamed(i) => i as int,
    }
}

/// `names` after the variables of `lits` were given numbers, in order.
pub open spec fn with_lits<V>(names: Seq<Option<V>>, lits: Seq<VarType<V>>) -> Seq<Option<V>>
    decreases lits.len(),
{
    if lits.len() == 0 {
        names
    } else {
        with_lit(with_lits(names, lits.drop_last()), lits.last())
    }
}

/// The signed solver literals of `lits`, in order, in a table that numbers
/// all their variables.
pub open spec fn lit_ids<V>(names: Seq<Option<V>>, lits: Seq<VarType<V>>) -> Seq<int> {
    Seq::new(lits.len(), |i: int| lit_id(names, lits[i]))
}

/// `n` anonymous entries.
pub open spec fn nones<V>(n: int) -> Seq<Option<V>> {
    Seq::new(n as nat, |i: int| None)
}

/// Whether every literal of `lits` is well-formed.
pub open spec fn all_well_formed<V>(lits: Seq<VarType<V>>) -> bool {
    forall|i: int| 0 <= i < lits.len() ==> (#[trigger] lits[i]).well_formed()
}

/// The literal that solver literal `i` stands for, if its variable is named.
pub open spec fn name_of<V>(names: Seq<Option<V>>, i: int) -> Option<Lit<V>> {
    let var = if i < 0 { -i } else { i };
    if 1 <= var <= names.len() {
        match names[var - 1] {
            Some(v) => Some(if i > 0 { Lit::Pos(v) } else { Lit::Neg(v) }),
            None => None,
        }
    } else {
        None
    }
}

/// No user variable stands at two positions of `names`.
pub open spec fn distinct_names<V>(names: Seq<Option<V>>) -> bool {
    forall|i: int, j: int|
        0 <= i < names.len() && 0 <= j < names.len() && names[i] is Some && names[i] == names[j]
            ==> i == j
}

pub proof fn lemma_id_of_range<V>(names: Seq<Option<V>>, v: V)
    ensures
        0 <= id_of(names, v) <= names.len(),
        id_of(names, v) != 0 ==> names[id_of(names, v) - 1] == Some(v),
        id_of(names, v) == 0 ==> forall|i: int| 0 <= i < names.len() ==> names[i] != Some(v),
    decreases names.len(),
{
    if names.len() != 0 && names.last() != Some(v) {
        lemma_id_of_range(names.drop_last(), v);
        if id_of(names, v) == 0 {
            assert forall|i: int| 0 <= i < names.len() implies names[i] != Some(v) by {
                if i < names.len() - 1 {
                    assert(names.drop_last()[i] == names[i]);
                }
            }
        }
    }
}

/// Numbers already given are kept when the table grows.
pub proof fn lemma_id_of_push<V>(names: Seq<Option<V>>, x: Option<V>, v: V)
    ensures
        id_of(names.push(x), v) == if x == Some(v) {
            names.len() as int + 1
        } else {
            id_of(names, v)
        },
{
    assert(names.push(x).drop_last() =~= names);
}

/// Giving a literal's variable a number extends the table by at most one
/// entry and keeps every number already given.
pub proof fn lemma_with_lit_extends<V>(names: Seq<Option<V>>, lit: VarType<V>)
    ensures
        names.len() <= with_lit(names, lit).len() <= names.len() + 1,
        with_lit(names, lit).take(names.len() as int) == names,
        forall|v: V| id_of(names, v) != 0 ==> id_of(with_lit(names, lit), v) == id_of(names, v),
        forall|l: VarType<V>|
            lit_id(names, l) != 0 ==> lit_id(with_lit(names, lit), l) == lit_id(names, l),
        lit_id(with_lit(names, lit), lit) != 0 || lit == VarType::<V>::Unnamed(0),
{
    let after = with_lit(names, lit);
    assert(after.take(names.len() as int) =~= names);
    assert forall|v: V| id_of(names, v) != 0 implies id_of(after, v) == id_of(names, v) by {
        if after != names {
            lemma_id_of_push(names, after.last(), v);
            lemma_id_of_range(names, v);
        }
    }
    match lit {
        VarType::Named(l) => {
            lemma_id_of_push(names, Some(l.spec_var()), l.spec_var());
        },
        VarType::Unnamed(_) => {},
    }
}

/// Numbering a sequence of literals extends the table by at most their
/// count, keeps every number already given, and numbers each of them.
pub proof fn lemma_with_lits_extends<V>(names: Seq<Option<V>>, lits: Seq<VarType<V>>)
    requires
        all_well_formed(lits),
    ensures
        names.len() <= with_lits(names, lits).len() <= names.len() + lits.len(),
        with_lits(names, lits).take(names.len() as int) == names,
        forall|l: VarType<V>|
            lit_id(names, l) != 0 ==> lit_id(with_lits(names, lits), l) == lit_id(names, l),
        forall|i: int| 0 <= i < lits.len() ==> lit_id(with_lits(names, lits), #[trigger] lits[i]) != 0,
    decreases lits.len(),
{
    if lits.len() > 0 {
        let head = lits.drop_last();
        let mid = with_lits(names, head);
        assert(all_well_formed(head)) by {
            assert forall|i: int| 0 <= i < head.len() implies (#[trigger] head[i]).well_formed() by {
                assert(head[i] == lits[i]);
            }
        }
        lemma_with_lits_extends(names, head);
        lemma_with_lit_extends(mid, lits.last());
        let after = with_lits(names, lits);
        assert(after.take(names.len() as int) =~= mid.take(names.len() as int));
        assert(lits.last().well_formed());
        assert forall|i: int| 0 <= i < lits.len() implies lit_id(after, #[trigger] lits[i])
            != 0 by {
            if i < lits.len() - 1 {
                assert(head[i] == lits[i]);
            }
        }
    } else {
        assert(with_lits(names, lits).take(names.len() as int) =~= names);
    }
}

/// Numbering only the first `i` literals gives a table that is no longer.
pub proof fn lemma_with_lits_prefix<V>(names: Seq<Option<V>>, lits: Seq<VarType<V>>, i: int)
    requires
        0 <= i <= lits.len(),
    ensures
        with_lits(names, lits.take(i)).len() <= with_lits(names, lits).len(),
    decreases lits.len(),
{
    if i == lits.len() {
        assert(lits.take(i) =~= lits);
    } else {
        assert(lits.drop_last().take(i) =~= lits.take(i));
        lemma_with_lits_prefix(names, lits.drop_last(), i);
        lemma_with_lit_extends(with_lits(names, lits.drop_last()), lits.last());
    }
}

/// Anonymous entries give no user variable a number and leave the others'
/// numbers alone.
pub proof fn lemma_nones_keep<V>(names: Seq<Option<V>>, n: int)
    requires
        0 <= n,
    ensures
        forall|v: V| id_of(names + nones::<V>(n), v) == id_of(names, v),
        forall|l: VarType<V>| lit_id(names + nones::<V>(n), l) == lit_id(names, l),
    decreases n,
{
    if n == 0 {
        assert(names + nones::<V>(0) =~= names);
    } else {
        lemma_nones_keep::<V>(names, n - 1);
        let shorter = names + nones::<V>(n - 1);
        assert(names + nones::<V>(n) =~= shorter.push(None));
        assert forall|v: V| id_of(names + nones::<V>(n), v) == id_of(names, v) by {
            lemma_id_of_push(shorter, None, v);
        }
    }
}

/// The table of solver variables: which user variable, if any, each one
/// stands for.
pub struct VarMap<V> {
    forward: HashMap<V, i32>,
    names: Vec<Option<V>>,
}

impl<V: SatVar> View for VarMap<V> {
    type V = Seq<Option<V>>;

    closed spec fn view(&self) -> Seq<Option<V>> {
        self.names@
    }
}

impl<V: SatVar> VarMap<V> {
    /// The invariant of the table: no user variable has two numbers, every
    /// number fits the solver's integer type, and the index agrees with the
    /// table.
    pub closed spec fn wf(&self) -> bool {
        &&& obeys_var_model::<V>()
        &&& self.names@.len() < i32::MAX
        &&& distinct_names(self.names@)
        &&& forall|v: V| #[trigger] self.forward@.contains_key(v) <==> id_of(self.names@, v) != 0
        &&& forall|v: V| #[trigger]
            self.forward@.contains_key(v) ==> self.forward@[v] == id_of(self.names@, v)
    }

    /// The number that the next fresh variable gets.
    pub open spec fn next(&self) -> int {
        self@.len() as int + 1
    }

    /// What holds of every well-formed table.
    pub proof fn lemma_wf(&self)
        requires
            self.wf(),
        ensures
            obeys_var_model::<V>(),
            distinct_names(self@),
            self@.len() < i32::MAX,
    {
    }

    /// A table without variables.
    pub fn new() -> (m: Self)
        requires
            obeys_var_model::<V>(),
        ensures
            m.wf(),
            m@ == Seq::<Option<V>>::empty(),
    {
        let m = VarMap { forward: HashMap::new(), names: Vec::new() };
        assert(m.names@ =~= Seq::<Option<V>>::empty());
        assert forall|v: V| id_of(m.names@, v) == 0 by {}
        m
    }

    /// Whether one more variable can be numbered.
    pub fn has_room(&self) -> (b: bool)
        requires
            self.wf(),
        ensures
            b == (self@.len() + 1 < i32::MAX),
    {
        self.names.len() < 0x7fff_fffe
    }

    /// The count of variables numbered so far.
    pub fn num_vars(&self) -> (n: i32)
        requires
            self.wf(),
        ensures
            n == self@.len(),
    {
        self.names.len() as i32
    }

    /// Gives a number to a fresh anonymous variable and returns it.
    pub fn new_var(&mut self) -> (id: i32)
        requires
            old(self).wf(),
            old(self)@.len() + 1 < i32::MAX,
        ensures
            final(self).wf(),
            final(self)@ == old(self)@.push(None),
            id == old(self)@.len() + 1,
    {
        self.names.push(None);
        proof {
            let old_names = old(self).names@;
            let new_names = self.names@;
            assert forall|v: V| id_of(new_names, v) == id_of(old_names, v) by {
                lemma_id_of_push(old_names, None, v);
            }
        }
        self.names.len() as i32
    }

    /// The number of user variable `v`, which gets the next free one if it
    /// has none yet.
    fn name_id(&mut self, v: V) -> (id: i32)
        requires
            old(self).wf(),
            id_of(old(self)@, v) == 0 ==> old(self)@.len() + 1 < i32::MAX,
        ensures
            final(self).wf(),
            final(self)@ == with_name(old(self)@, v),
            id == id_of(final(self)@, v),
            1 <= id <= final(self)@.len(),
    {
        proof {
            lemma_id_of_range(self.names@, v);
        }
        let found = self.forward.get(&v);
        if let Some(id) = found {
            *id
        } else {
            let copy = v.clone();
            assert(cloned(v, copy));
            self.names.push(Some(copy));
            let id: i32 = self.names.len() as i32;
            self.forward.insert(v, id);
            proof {
                let old_names = old(self).names@;
                let new_names = self.names@;
                assert(new_names == old_names.push(Some(v)));
                assert forall|w: V| id_of(new_names, w) == (if w == v {
                    old_names.len() as int + 1
                } else {
                    id_of(old_names, w)
                }) by {
                    lemma_id_of_push(old_names, Some(v), w);
                }
                assert(distinct_names(new_names)) by {
                    assert forall|i: int, j: int|
                        0 <= i < new_names.len() && 0 <= j < new_names.len()
                            && new_names[i] is Some && new_names[i] == new_names[j] implies i
                        == j by {
                        if i < old_names.len() && j < old_names.len() {
                            assert(old_names[i] == old_names[j]);
                        }
                    }
                }
            }
            id
        }
    }

    /// The signed solver literal for `lit`; a named variable that is new to
    /// the table gets the next free number first.
    pub fn add_var(&mut self, lit: VarType<V>) -> (id: i32)
        requires
            old(self).wf(),
            lit.well_formed(),
            with_lit(old(self)@, lit).len() < i32::MAX,
        ensures
            final(self).wf(),
            final(self)@ == with_lit(old(self)@, lit),
            id == lit_id(final(self)@, lit),
            id != 0,
            id != i32::MIN,
    {
        match lit {
            VarType::Named(Lit::Pos(v)) => self.name_id(v),
            VarType::Named(Lit::Neg(v)) => -self.name_id(v),
            VarType::Unnamed(i) => i,
        }
    }

    /// A copy of `lit`.
    pub fn copy_lit(lit: &VarType<V>) -> (r: VarType<V>)
        requires
            obeys_var_model::<V>(),
        ensures
            r == *lit,
    {
        match lit {
            VarType::Named(Lit::Pos(v)) => {
                let c = v.clone();
                assert(cloned(*v, c));
                VarType::Named(Lit::Pos(c))
            },
            VarType::Named(Lit::Neg(v)) => {
                let c = v.clone();
                assert(cloned(*v, c));
                VarType::Named(Lit::Neg(c))
            },
            VarType::Unnamed(i) => VarType::Unnamed(*i),
        }
    }

    /// The signed solver literals for `lits`, in order; named variables that
    /// are new to the table get the next free numbers first.
    pub fn add_vars(&mut self, lits: &Vec<VarType<V>>) -> (ids: Vec<i32>)
        requires
            old(self).wf(),
            all_well_formed(lits@),
            with_lits(old(self)@, lits@).len() < i32::MAX,
        ensures
            final(self).wf(),
            final(self)@ == with_lits(old(self)@, lits@),
            ints(ids@) == lit_ids(final(self)@, lits@),
            all_literals(ids@),
            ids@.len() == lits@.len(),
    {
        let mut ids: Vec<i32> = Vec::new();
        let mut i: usize = 0;
        assert(lits@.take(0) =~= Seq::<VarType<V>>::empty());
        while i < lits.len()
            invariant
                i <= lits@.len(),
                self.wf(),
                all_well_formed(lits@),
                with_lits(old(self)@, lits@).len() < i32::MAX,
                self@ == with_lits(old(self)@, lits@.take(i as int)),
                ids@.len() == i,
                all_literals(ids@),
                ints(ids@) == lit_ids(self@, lits@.take(i as int)),
            decreases lits@.len() - i,
        {
            let ghost before = self@;
            let ghost taken = lits@.take(i as int);
            let ghost ids_before = ids@;
            proof {
                lemma_with_lits_prefix(old(self)@, lits@, i as int + 1);
                assert(lits@.take(i as int + 1).drop_last() =~= taken);
            }
            let lit = Self::copy_lit(&lits[i]);
            let id = self.add_var(lit);
            ids.push(id);
            proof {
                let next = lits@.take(i as int + 1);
                assert(next.drop_last() =~= taken);
                assert(next.last() == lits@[i as int]);
                lemma_with_lit_extends(before, lits@[i as int]);
                lemma_ints_push(ids_before, id);
                assert(all_well_formed(taken)) by {
                    assert forall|j: int| 0 <= j < taken.len() implies (
                    #[trigger] taken[j]).well_formed() by {
                        assert(taken[j] == lits@[j]);
                    }
                }
                lemma_with_lits_extends(old(self)@, taken);
                assert forall|j: int| 0 <= j < i + 1 implies ints(ids@)[j] == lit_ids(
                    self@,
                    next,
                )[j] by {
                    if j < i {
                        assert(ints(ids_before)[j] == lit_id(before, taken[j]));
                        assert(lit_id(before, taken[j]) != 0);
                        assert(taken[j] == next[j]);
                    }
                }
                assert(ints(ids@) =~= lit_ids(self@, next));
            }
            i += 1;
        }
        assert(lits@.take(lits@.len() as int) =~= lits@);
        ids
    }

    /// The signed solver literal for `lit`, or `None` where its variable was
    /// never given a number.
    pub fn get_var(&self, lit: VarType<V>) -> (r: Option<i32>)
        requires
            self.wf(),
        ensures
            r == match lit {
                VarType::Named(l) => if id_of(self@, l.spec_var()) != 0 {
                    Some(lit_id(self@, lit) as i32)
                } else {
                    None
                },
                VarType::Unnamed(i) => Some(i),
            },
    {
        match lit {
            VarType::Named(l) => {
                proof {
                    lemma_id_of_range(self.names@, l.spec_var());
                }
                let pos = l.is_pos();
                let v = l.unwrap();
                match self.forward.get(&v) {
                    Some(id) => {
                        if pos {
                            Some(*id)
                        } else {
                            Some(-*id)
                        }
                    },
                    None => None,
                }
            },
            VarType::Unnamed(i) => Some(i),
        }
    }

    /// The user literal that solver literal `i` stands for, or `None` where
    /// its variable is anonymous or was never numbered.
    pub fn lookup(&self, i: i32) -> (r: Option<Lit<V>>)
        requires
            self.wf(),
        ensures
            r == name_of(self@, i as int),
    {
        if i == 0 || i == i32::MIN {
            return None;
        }
        let var: i32 = if i < 0 { -i } else { i };
        if var as usize > self.names.len() {
            return None;
        }
        match &self.names[(var - 1) as usize] {
            Some(v) => {
                let copy = v.clone();
                assert(cloned(*v, copy));
                if i > 0 {
                    Some(Lit::Pos(copy))
                } else {
                    Some(Lit::Neg(copy))
                }
            },
            None => None,
        }
    }

    /// An independent copy of the table.
    pub fn snapshot(&self) -> (copy: Self)
        requires
            self.wf(),
        ensures
            copy.wf(),
            copy@ == self@,
    {
        let mut copy = VarMap { forward: HashMap::new(), names: Vec::new() };
        proof {
            assert(copy.names@ =~= self.names@.take(0));
            assert forall|v: V| id_of(copy.names@, v) == 0 by {}
        }
        let mut i: usize = 0;
        while i < self.names.len()
            invariant
                i <= self.names@.len(),
                self.wf(),
                copy.wf(),
                copy.names@ == self.names@.take(i as int),
            decreases self.names@.len() - i,
        {
            let ghost before = copy.names@;
            match &self.names[i] {
                Some(v) => {
                    let c = v.clone();
                    assert(cloned(*v, c));
                    proof {
                        lemma_id_of_range(before, c);
                        if id_of(before, c) != 0 {
                            let j = id_of(before, c) - 1;
                            assert(self.names@[j] == before[j]);
                            assert(self.names@[j] == self.names@[i as int]);
                        }
                    }
                    copy.name_id(c);
                },
                None => {
                    copy.new_var();
                },
            }
            assert(copy.names@ =~= self.names@.take(i as int + 1));
            i += 1;
        }
        assert(self.names@.take(self.names@.len() as int) =~= self.names@);
        copy
    }

    /// Every solver variable numbered so far, in the order of numbering.
    pub fn iter_internal_vars(&self) -> (ids: Vec<i32>)
        requires
            self.wf(),
        ensures
            ids@.len() == self@.len(),
            forall|i: int| 0 <= i < ids@.len() ==> ids@[i] == i + 1,
    {
        let n: usize = self.names.len();
        let mut ids: Vec<i32> = Vec::new();
        let mut i: usize = 0;
        while i < n
            invariant
                i <= n,
                n < i32::MAX,
                ids@.len() == i,
                forall|j: int| 0 <= j < i ==> ids@[j] == j + 1,
            decreases n - i,
        {
            ids.push((i + 1) as i32);
            i += 1;
        }
        ids
    }
}

} // verus!
