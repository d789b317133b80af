//! Abstract values: each value is a set of origins (identifier plus offset),
//! a set of possible absolute constants and a flag for unknown contributions.

use vstd::prelude::*;
use crate::ir::Variable;

verus! {

/// Where an origin identifier was created: a register, or a stack slot given
/// by its offset from the stack pointer at function entry and its size.
#[derive(Clone, Copy, Debug, PartialEq, Eq, Structural)]
pub enum Location {
    Register(Variable),
    Stack(i64, u64),
}

/// Names the origin of a value: the term (a function or a call site) together
/// with the location of the value at that term.
#[derive(Clone, Copy, Debug, PartialEq, Eq, Structural)]
pub struct AbstractId {
    pub tid: u64,
    pub location: Location,
}

/// The mathematical content of a [`Value`].
pub struct ValueView {
    pub relative: Set<(AbstractId, i64)>,
    pub absolute: Set<i64>,
    pub contains_top: bool,
}

/// An abstract value. The entry order of the vectors carries no meaning.
#[derive(Debug)]
pub struct Value {
    pub relative: Vec<(AbstractId, i64)>,
    pub absolute: Vec<i64>,
    pub contains_top: bool,
}

impl View for Value {
    type V = ValueView;

    open spec fn view(&self) -> ValueView {
        ValueView {
            relative: Set::new(|p: (AbstractId, i64)| self.relative@.contains(p)),
            absolute: Set::new(|c: i64| self.absolute@.contains(c)),
            contains_top: self.contains_top,
        }
    }
}

/// The join of two abstract values: union of origins and constants, or of the flags.
pub open spec fn join(a: ValueView, b: ValueView) -> ValueView {
    ValueView {
        relative: a.relative.union(b.relative),
        absolute: a.absolute.union(b.absolute),
        contains_top: a.contains_top || b.contains_top,
    }
}

/// The order of information content: `a` says no more than `b` admits.
pub open spec fn value_le(a: ValueView, b: ValueView) -> bool {
    a.relative.subset_of(b.relative) && a.absolute.subset_of(b.absolute) && (a.contains_top
        ==> b.contains_top)
}

pub open spec fn top_view() -> ValueView {
    ValueView { relative: Set::empty(), absolute: Set::empty(), contains_top: true }
}

/// The value shifted by a constant offset, with the wrap-around of 64-bit arithmetic.
pub open spec fn shift(v: ValueView, c: i64) -> ValueView {
    ValueView {
        relative: v.relative.map(|p: (AbstractId, i64)| (p.0, p.1.wrapping_add(c))),
        absolute: v.absolute.map(|x: i64| x.wrapping_add(c)),
        contains_top: v.contains_top,
    }
}

/// The ids that occur in the origins of a value.
pub open spec fn ids_of(v: ValueView) -> Set<AbstractId> {
    Set::new(|id: AbstractId| exists|o: i64| v.relative.contains((id, o)))
}

/// The identifier that stands for the unknown part of the value that a call
/// at `call_tid` leaves in register `reg`.
pub open spec fn call_return_id(call_tid: u64, reg: Variable) -> AbstractId {
    AbstractId { tid: call_tid, location: Location::Register(reg) }
}

impl AbstractId {
    /// The id of the value that the call at `call_tid` leaves in `reg`, where
    /// its origin cannot be named otherwise.
    pub fn new_from_var(call_tid: u64, reg: Variable) -> (r: AbstractId)
        ensures
            r == call_return_id(call_tid, reg),
    {
        AbstractId { tid: call_tid, location: Location::Register(reg) }
    }
}

impl Value {
    /// The value that knows nothing.
    pub fn new_top() -> (r: Value)
        ensures
            r@ == top_view(),
    {
        let r = Value { relative: Vec::new(), absolute: Vec::new(), contains_top: true };
        assert(r@.relative =~= Set::empty());
        assert(r@.absolute =~= Set::empty());
        r
    }

    /// The value with no possible content at all, the neutral element of the join.
    pub fn new_empty() -> (r: Value)
        ensures
            r@.relative == Set::<(AbstractId, i64)>::empty(),
            r@.absolute == Set::<i64>::empty(),
            !r@.contains_top,
    {
        let r = Value { relative: Vec::new(), absolute: Vec::new(), contains_top: false };
        assert(r@.relative =~= Set::empty());
        assert(r@.absolute =~= Set::empty());
        r
    }

    /// The absolute constant `c`.
    pub fn from_absolute(c: i64) -> (r: Value)
        ensures
            r@.relative == Set::<(AbstractId, i64)>::empty(),
            r@.absolute == set![c],
            !r@.contains_top,
    {
        let r = Value { relative: Vec::new(), absolute: vec![c], contains_top: false };
        assert(r@.relative =~= Set::empty());
        assert(r@.absolute =~= set![c]);
        r
    }

    /// The value at `offset` from the origin `id`.
    pub fn from_target(id: AbstractId, offset: i64) -> (r: Value)
        ensures
            r@.relative == set![(id, offset)],
            r@.absolute == Set::<i64>::empty(),
            !r@.contains_top,
    {
        let r = Value { relative: vec![(id, offset)], absolute: Vec::new(), contains_top: false };
        assert(r@.relative =~= set![(id, offset)]);
        assert(r@.absolute =~= Set::empty());
        r
    }

    /// A copy with the same content.
    pub fn duplicate(&self) -> (r: Value)
        ensures
            r@ == self@,
            r.relative@ == self.relative@,
            r.absolute@ == self.absolute@,
    {
        let mut relative: Vec<(AbstractId, i64)> = Vec::new();
        let mut i: usize = 0;
        while i < self.relative.len()
            invariant
                i <= self.relative@.len(),
                relative@ == self.relative@.take(i as int),
            decreases self.relative@.len() - i,
        {
            relative.push(self.relative[i]);
            i = i + 1;
            assert(relative@ =~= self.relative@.take(i as int));
        }
        let mut absolute: Vec<i64> = Vec::new();
        let mut j: usize = 0;
        while j < self.absolute.len()
            invariant
                j <= self.absolute@.len(),
                absolute@ == self.absolute@.take(j as int),
            decreases self.absolute@.len() - j,
        {
            absolute.push(self.absolute[j]);
            j = j + 1;
            assert(absolute@ =~= self.absolute@.take(j as int));
        }
        assert(relative@ =~= self.relative@);
        assert(absolute@ =~= self.absolute@);
        let r = Value { relative, absolute, contains_top: self.contains_top };
        assert(r@.relative =~= self@.relative);
        assert(r@.absolute =~= self@.absolute);
        r
    }

    /// Whether the origin `id` occurs in the value.
    pub fn refers_to(&self, id: AbstractId) -> (r: bool)
        ensures
            r == ids_of(self@).contains(id),
    {
        let mut i: usize = 0;
        while i < self.relative.len()
            invariant
                i <= self.relative@.len(),
                forall|k: int| 0 <= k < i ==> self.relative@[k].0 != id,
            decreases self.relative@.len() - i,
        {
            if self.relative[i].0 == id {
                assert(self@.relative.contains((id, self.relative@[i as int].1)));
                return true;
            }
            i = i + 1;
        }
        proof {
            if ids_of(self@).contains(id) {
                let o = choose|o: i64| self@.relative.contains((id, o));
                let k = choose|k: int| 0 <= k < self.relative@.len() && self.relative@[k] == (id, o);
                assert(self.relative@[k].0 == id);
            }
        }
        false
    }

    /// Whether the value has an absolute component.
    pub fn has_absolute(&self) -> (r: bool)
        ensures
            r == !self@.absolute.is_empty(),
    {
        if self.absolute.len() == 0 {
            assert(self@.absolute =~= Set::empty());
            false
        } else {
            assert(self@.absolute.contains(self.absolute@[0]));
            true
        }
    }

    /// The single absolute constant that the value can hold, where it is
    /// exactly such a constant: no origins and no unknown part.
    pub fn get_if_absolute_value(&self) -> (r: Option<i64>)
        ensures
            r matches Some(c) ==> self@.absolute == set![c] && self@.relative.is_empty()
                && !self@.contains_top,
            r is None ==> !(exists|c: i64|
                self@.absolute == set![c] && self@.relative.is_empty() && !self@.contains_top),
    {
        if self.contains_top || self.relative.len() != 0 || self.absolute.len() == 0 {
            proof {
                if self.relative.len() != 0 {
                    assert(self@.relative.contains(self.relative@[0]));
                }
                if self.absolute.len() == 0 {
                    assert forall|c: i64| self@.absolute != set![c] by {
                        assert(set![c].contains(c));
                    }
                }
            }
            return None;
        }
        let c = self.absolute[0];
        let mut i: usize = 1;
        while i < self.absolute.len()
            invariant
                1 <= i <= self.absolute@.len(),
                c == self.absolute@[0],
                forall|k: int| 0 <= k < i ==> self.absolute@[k] == c,
            decreases self.absolute@.len() - i,
        {
            if self.absolute[i] != c {
                proof {
                    assert forall|d: i64| self@.absolute != set![d] by {
                        assert(self@.absolute.contains(c));
                        assert(self@.absolute.contains(self.absolute@[i as int]));
                    }
                }
                return None;
            }
            i = i + 1;
        }
        assert(self@.absolute =~= set![c]);
        assert(self@.relative =~= Set::empty());
        Some(c)
    }

    /// The value plus the constant `c` (64-bit wrap-around).
    pub fn add_offset(&self, c: i64) -> (r: Value)
        ensures
            r@ == shift(self@, c),
    {
        let mut relative: Vec<(AbstractId, i64)> = Vec::new();
        let mut i: usize = 0;
        while i < self.relative.len()
            invariant
                i <= self.relative@.len(),
                relative@.len() == i,
                forall|k: int|
                    0 <= k < i ==> #[trigger] relative@[k] == (self.relative@[k].0,
                        self.relative@[k].1.wrapping_add(c)),
            decreases self.relative@.len() - i,
        {
            let (id, o) = self.relative[i];
            relative.push((id, o.wrapping_add(c)));
            i = i + 1;
        }
        let mut absolute: Vec<i64> = Vec::new();
        let mut j: usize = 0;
        while j < self.absolute.len()
            invariant
                j <= self.absolute@.len(),
                absolute@.len() == j,
                forall|k: int|
                    0 <= k < j ==> #[trigger] absolute@[k] == self.absolute@[k].wrapping_add(c),
            decreases self.absolute@.len() - j,
        {
            absolute.push(self.absolute[j].wrapping_add(c));
            j = j + 1;
        }
        let r = Value { relative, absolute, contains_top: self.contains_top };
        let ghost f = |p: (AbstractId, i64)| (p.0, p.1.wrapping_add(c));
        let ghost g = |x: i64| x.wrapping_add(c);
        assert forall|p: (AbstractId, i64)| r@.relative.contains(p) == self@.relative.map(f).contains(
            p,
        ) by {
            if r@.relative.contains(p) {
                let k = choose|k: int| 0 <= k < relative@.len() && relative@[k] == p;
                assert(self@.relative.contains(self.relative@[k]));
            }
            if self@.relative.map(f).contains(p) {
                let q = choose|q: (AbstractId, i64)| self@.relative.contains(q) && f(q) == p;
                let k = choose|k: int| 0 <= k < self.relative@.len() && self.relative@[k] == q;
                assert(relative@[k] == p);
            }
        }
        assert forall|x: i64| r@.absolute.contains(x) == self@.absolute.map(g).contains(x) by {
            if r@.absolute.contains(x) {
                let k = choose|k: int| 0 <= k < absolute@.len() && absolute@[k] == x;
                assert(self@.absolute.contains(self.absolute@[k]));
            }
            if self@.absolute.map(g).contains(x) {
                let q = choose|q: i64| self@.absolute.contains(q) && g(q) == x;
                let k = choose|k: int| 0 <= k < self.absolute@.len() && self.absolute@[k] == q;
                assert(absolute@[k] == x);
            }
        }
        assert(r@.relative =~= shift(self@, c).relative);
        assert(r@.absolute =~= shift(self@, c).absolute);
        r
    }

    /// The join with `other`; entries already present are not repeated.
    pub fn merge(&self, other: &Value) -> (r: Value)
        ensures
            r@ == join(self@, other@),
    {
        let mut r = self.duplicate();
        let mut i: usize = 0;
        while i < other.relative.len()
            invariant
                i <= other.relative@.len(),
                r.absolute@ == self.absolute@,
                r.contains_top == self.contains_top,
                forall|p: (AbstractId, i64)|
                    r.relative@.contains(p) <==> (self.relative@.contains(p) || exists|k: int|
                        0 <= k < i && other.relative@[k] == p),
            decreases other.relative@.len() - i,
        {
            let p = other.relative[i];
            let ghost before = r.relative@;
            if !contains_pair(&r.relative, p) {
                r.relative.push(p);
                assert(r.relative@.contains(p)) by { assert(r.relative@[before.len() as int] == p); }
            }
            proof {
                assert forall|q: (AbstractId, i64)|
                    r.relative@.contains(q) <==> (self.relative@.contains(q) || exists|k: int|
                        0 <= k < i + 1 && other.relative@[k] == q) by {
                    if r.relative@.contains(q) && q != p {
                        let k = choose|k: int| 0 <= k < r.relative@.len() && r.relative@[k] == q;
                        assert(before[k] == q);
                    }
                    if before.contains(q) {
                        let k = choose|k: int| 0 <= k < before.len() && before[k] == q;
                        assert(r.relative@[k] == q);
                    }
                    if q == p {
                        assert(other.relative@[i as int] == q);
                    }
                    if exists|k: int| 0 <= k < i + 1 && other.relative@[k] == q {
                        let k = choose|k: int| 0 <= k < i + 1 && other.relative@[k] == q;
                        if k < i {
                            assert(exists|k: int| 0 <= k < i && other.relative@[k] == q);
                        }
                    }
                }
            }
            i = i + 1;
        }
        let mut j: usize = 0;
        while j < other.absolute.len()
            invariant
                j <= other.absolute@.len(),
                r.contains_top == self.contains_top,
                forall|p: (AbstractId, i64)|
                    r.relative@.contains(p) <==> (self.relative@.contains(p)
                        || other.relative@.contains(p)),
                forall|x: i64|
                    r.absolute@.contains(x) <==> (self.absolute@.contains(x) || exists|k: int|
                        0 <= k < j && other.absolute@[k] == x),
            decreases other.absolute@.len() - j,
        {
            let x = other.absolute[j];
            let ghost before = r.absolute@;
            if !contains_constant(&r.absolute, x) {
                r.absolute.push(x);
                assert(r.absolute@.contains(x)) by { assert(r.absolute@[before.len() as int] == x); }
            }
            proof {
                assert forall|y: i64|
                    r.absolute@.contains(y) <==> (self.absolute@.contains(y) || exists|k: int|
                        0 <= k < j + 1 && other.absolute@[k] == y) by {
                    if r.absolute@.contains(y) && y != x {
                        let k = choose|k: int| 0 <= k < r.absolute@.len() && r.absolute@[k] == y;
                        assert(before[k] == y);
                    }
                    if before.contains(y) {
                        let k = choose|k: int| 0 <= k < before.len() && before[k] == y;
                        assert(r.absolute@[k] == y);
                    }
                    if y == x {
                        assert(other.absolute@[j as int] == y);
                    }
                    if exists|k: int| 0 <= k < j + 1 && other.absolute@[k] == y {
                        let k = choose|k: int| 0 <= k < j + 1 && other.absolute@[k] == y;
                        if k < j {
                            assert(exists|k: int| 0 <= k < j && other.absolute@[k] == y);
                        }
                    }
                }
            }
            j = j + 1;
        }
        r.contains_top = self.contains_top || other.contains_top;
        assert(r@.relative =~= join(self@, other@).relative);
        assert(r@.absolute =~= join(self@, other@).absolute);
        r
    }
}

fn contains_pair(v: &Vec<(AbstractId, i64)>, p: (AbstractId, i64)) -> (r: bool)
    ensures
        r == v@.contains(p),
{
    let mut i: usize = 0;
    while i < v.len()
        invariant
            i <= v@.len(),
            forall|k: int| 0 <= k < i ==> v@[k] != p,
        decreases v@.len() - i,
    {
        let q = v[i];
        if q.0 == p.0 && q.1 == p.1 {
            return true;
        }
        i = i + 1;
    }
    false
}

fn contains_constant(v: &Vec<i64>, x: i64) -> (r: bool)
    ensures
        r == v@.contains(x),
{
    let mut i: usize = 0;
    while i < v.len()
        invariant
            i <= v@.len(),
            forall|k: int| 0 <= k < i ==> v@[k] != x,
        decreases v@.len() - i,
    {
        if v[i] == x {
            return true;
        }
        i = i + 1;
    }
    false
}

/// Joining is commutative.
pub proof fn lemma_join_commutative(a: ValueView, b: ValueView)
    ensures
        join(a, b) == join(b, a),
{
    assert(join(a, b).relative =~= join(b, a).relative);
    assert(join(a, b).absolute =~= join(b, a).absolute);
}

/// Joining is associative.
pub proof fn lemma_join_associative(a: ValueView, b: ValueView, c: ValueView)
    ensures
        join(join(a, b), c) == join(a, join(b, c)),
{
    assert(join(join(a, b), c).relative =~= join(a, join(b, c)).relative);
    assert(join(join(a, b), c).absolute =~= join(a, join(b, c)).absolute);
}

/// Joining a value with itself gives the value back.
pub proof fn lemma_join_idempotent(a: ValueView)
    ensures
        join(a, a) == a,
{
    assert(join(a, a).relative =~= a.relative);
    assert(join(a, a).absolute =~= a.absolute);
}

/// The join holds at least the information of each side.
pub proof fn lemma_join_upper_bound(a: ValueView, b: ValueView)
    ensures
        value_le(a, join(a, b)),
        value_le(b, join(a, b)),
{
}

} // verus!
