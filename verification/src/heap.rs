//! The thunk arena. A thunk is a suspended computation — a captured term and
//! the scope it was captured in — with a write-once memo cell. Every alias of
//! a binding holds the same cell index, so once the cell is filled every
//! alias observes the same final value. The explicit `Forcing` state makes
//! re-entrant forcing (a binding demanding its own value) detectable instead
//! of looping.
use vstd::prelude::*;

use crate::value::{Scope, SpecValue, Value, is_whnf, scope_valid, value_valid};

verus! {

/// One thunk cell: suspended, being forced, or memoized.
#[derive(Debug)]
pub enum Thunk {
    /// The captured term and scope; not yet demanded.
    Unforced { scope: Scope, expr: Box<Value> },
    /// Being reduced right now: demanding it again is a re-entrant cycle.
    Forcing,
    /// Memoized: the cell was filled exactly once and never changes again.
    Forced(Value),
}

/// The mathematical mirror of `Thunk`.
#[verifier::ext_equal]
pub enum SpecThunk {
    Unforced { scope: Scope, expr: SpecValue },
    Forcing,
    Forced(SpecValue),
}

impl View for Thunk {
    type V = SpecThunk;

    open spec fn view(&self) -> SpecThunk {
        match self {
            Thunk::Unforced { scope, expr } => SpecThunk::Unforced {
                scope: *scope,
                expr: (**expr)@,
            },
            Thunk::Forcing => SpecThunk::Forcing,
            Thunk::Forced(v) => SpecThunk::Forced(v@),
        }
    }
}

/// The views of a list of thunks.
pub open spec fn thunks_view(s: Seq<Thunk>) -> Seq<SpecThunk>
    decreases s,
{
    if s.len() == 0 {
        Seq::empty()
    } else {
        seq![s[0]@] + thunks_view(s.drop_first())
    }
}

/// The view of a thunk list is the list of the views.
pub broadcast proof fn lemma_thunks_view(s: Seq<Thunk>)
    ensures
        (#[trigger] thunks_view(s)).len() == s.len(),
        forall|i: int| 0 <= i < s.len() ==> thunks_view(s)[i] == s[i]@,
    decreases s,
{
    if s.len() > 0 {
        lemma_thunks_view(s.drop_first());
    }
}

/// The arena of thunk cells, addressed by stable indices.
#[derive(Debug)]
pub struct Heap {
    pub thunks: Vec<Thunk>,
}

impl View for Heap {
    type V = Seq<SpecThunk>;

    open spec fn view(&self) -> Seq<SpecThunk> {
        thunks_view(self.thunks@)
    }
}

/// A thunk cell is well formed with respect to an environment of `nf` frames
/// and a heap of `nt` thunks: its scope and term point into them, and a
/// memoized value is in weak head normal form.
pub open spec fn thunk_wf(t: SpecThunk, nf: int, nt: int) -> bool {
    match t {
        SpecThunk::Unforced { scope, expr } => scope_valid(scope, nf) && value_valid(expr, nf, nt),
        SpecThunk::Forcing => true,
        SpecThunk::Forced(v) => is_whnf(v) && value_valid(v, nf, nt),
    }
}

pub open spec fn heap_wf(h: Seq<SpecThunk>, nf: int) -> bool {
    forall|i: int| 0 <= i < h.len() ==> thunk_wf(#[trigger] h[i], nf, h.len() as int)
}

/// The one-way life of a cell: suspended, then being forced, then memoized —
/// and a memoized cell never changes again, not even its value.
pub open spec fn thunk_le(a: SpecThunk, b: SpecThunk) -> bool {
    match a {
        SpecThunk::Unforced { .. } => b == a || b is Forcing || b is Forced,
        SpecThunk::Forcing => b is Forcing || b is Forced,
        SpecThunk::Forced(v) => b == SpecThunk::Forced(v),
    }
}

/// Heap evolution: cells are only appended, and each existing cell moves
/// only forward along `thunk_le`.
pub open spec fn heap_le(a: Seq<SpecThunk>, b: Seq<SpecThunk>) -> bool {
    &&& a.len() <= b.len()
    &&& forall|i: int| 0 <= i < a.len() ==> thunk_le(#[trigger] a[i], b[i])
}

pub proof fn lemma_heap_le_refl(a: Seq<SpecThunk>)
    ensures
        heap_le(a, a),
{
}

pub proof fn lemma_heap_le_trans(a: Seq<SpecThunk>, b: Seq<SpecThunk>, c: Seq<SpecThunk>)
    requires
        heap_le(a, b),
        heap_le(b, c),
    ensures
        heap_le(a, c),
{
    assert forall|i: int| 0 <= i < a.len() implies thunk_le(#[trigger] a[i], c[i]) by {
        assert(thunk_le(a[i], b[i]));
        assert(thunk_le(b[i], c[i]));
    }
}

/// The write-once law of call-by-need sharing: once a cell is memoized, any
/// later heap holds the same cell with the same value, so every alias of the
/// thunk observes the same final value and the suspended computation never
/// runs again.
pub proof fn lemma_forced_is_stable(a: Seq<SpecThunk>, b: Seq<SpecThunk>, i: int)
    requires
        heap_le(a, b),
        0 <= i < a.len(),
        a[i] is Forced,
    ensures
        b[i] == a[i],
{
}

impl Heap {
    /// The empty heap.
    pub fn new() -> (r: Heap)
        ensures
            r@ == Seq::<SpecThunk>::empty(),
    {
        let r = Heap { thunks: Vec::new() };
        proof {
            assert(r@ =~= Seq::<SpecThunk>::empty());
        }
        r
    }

    pub fn len(&self) -> (n: usize)
        ensures
            n == self@.len(),
    {
        proof {
            broadcast use lemma_thunks_view;

        }
        self.thunks.len()
    }

    /// Suspends `expr` in `scope` as a fresh cell and returns its index.
    pub fn suspend(&mut self, scope: Scope, expr: Value) -> (t: usize)
        ensures
            final(self)@ == old(self)@.push(SpecThunk::Unforced { scope, expr: expr@ }),
            t == old(self)@.len(),
            heap_le(old(self)@, final(self)@),
    {
        proof {
            broadcast use lemma_thunks_view;

        }
        let t = self.thunks.len();
        self.thunks.push(Thunk::Unforced { scope, expr: Box::new(expr) });
        proof {
            assert(final(self)@ =~= old(self)@.push(
                SpecThunk::Unforced { scope, expr: expr@ },
            ));
        }
        t
    }

    /// Reads the memoized value of `t`, if the cell is filled.
    pub fn read_forced(&self, t: usize) -> (r: Option<Value>)
        requires
            t < self@.len(),
        ensures
            r is Some <==> self@[t as int] is Forced,
            r matches Some(v) ==> self@[t as int] == SpecThunk::Forced(v@),
    {
        proof {
            broadcast use lemma_thunks_view;

        }
        match &self.thunks[t] {
            Thunk::Forced(v) => Some(v.clone()),
            _ => None,
        }
    }

    /// Whether the cell of `t` is being forced right now.
    pub fn is_forcing(&self, t: usize) -> (r: bool)
        requires
            t < self@.len(),
        ensures
            r == (self@[t as int] is Forcing),
    {
        proof {
            broadcast use lemma_thunks_view;

        }
        match &self.thunks[t] {
            Thunk::Forcing => true,
            _ => false,
        }
    }

    /// Takes the suspended computation out of an unforced cell and marks the
    /// cell as being forced. The captured scope and term come back to the
    /// caller, which must finish with `finish_force`.
    pub fn begin_force(&mut self, t: usize) -> (r: (Scope, Value))
        requires
            t < old(self)@.len(),
            old(self)@[t as int] is Unforced,
        ensures
            final(self)@ == old(self)@.update(t as int, SpecThunk::Forcing),
            old(self)@[t as int] == (SpecThunk::Unforced { scope: r.0, expr: r.1@ }),
            heap_le(old(self)@, final(self)@),
    {
        proof {
            broadcast use lemma_thunks_view;

        }
        let mut cell = Thunk::Forcing;
        let slot = &mut self.thunks[t];
        core::mem::swap(slot, &mut cell);
        proof {
            assert(final(self)@ =~= old(self)@.update(t as int, SpecThunk::Forcing));
        }
        match cell {
            Thunk::Unforced { scope, expr } => (scope, *expr),
            _ => {
                proof {
                    assert(false);
                }
                (Scope::empty(), Value::Literal(crate::value::LiteralValue::Null))
            },
        }
    }

    /// Fills the memo cell of `t`, exactly once: only a cell in the forcing
    /// state can be filled, and a filled cell never changes again.
    pub fn finish_force(&mut self, t: usize, value: Value)
        requires
            t < old(self)@.len(),
            old(self)@[t as int] is Forcing,
        ensures
            final(self)@ == old(self)@.update(t as int, SpecThunk::Forced(value@)),
            heap_le(old(self)@, final(self)@),
    {
        proof {
            broadcast use lemma_thunks_view;

        }
        let mut cell = Thunk::Forced(value);
        let slot = &mut self.thunks[t];
        core::mem::swap(slot, &mut cell);
        proof {
            assert(final(self)@ =~= old(self)@.update(t as int, SpecThunk::Forced(value@)));
        }
    }
}

} // verus!
