//! The two-tier environment: a global table, built once at link time and read
//! only thereafter, and a persistent chain of local scope frames with
//! structural sharing. Extending a scope appends a frame to the arena and
//! returns a new handle; every holder of an older handle is unaffected.
use vstd::prelude::*;

use crate::id::Id;
use crate::value::{BuiltinOp, Scope, SpecValue, Value, scope_valid, value_valid};

verus! {

/// A global binding: a name and its value.
#[derive(Debug)]
pub struct Binding {
    pub name: String,
    pub value: Value,
}

/// The mathematical mirror of `Binding`.
#[verifier::ext_equal]
pub struct SpecBinding {
    pub name: Seq<char>,
    pub value: SpecValue,
}

impl View for Binding {
    type V = SpecBinding;

    open spec fn view(&self) -> SpecBinding {
        SpecBinding { name: self.name@, value: self.value@ }
    }
}

impl Clone for Binding {
    fn clone(&self) -> (r: Self)
        ensures
            r@ == self@,
    {
        Binding { name: self.name.clone(), value: self.value.clone() }
    }
}

/// One local scope frame: a binding plus the frame it extends.
#[derive(Debug)]
pub struct Frame {
    pub name: String,
    pub value: Value,
    pub parent: Option<usize>,
}

/// The mathematical mirror of `Frame`.
#[verifier::ext_equal]
pub struct SpecFrame {
    pub name: Seq<char>,
    pub value: SpecValue,
    pub parent: Option<usize>,
}

impl View for Frame {
    type V = SpecFrame;

    open spec fn view(&self) -> SpecFrame {
        SpecFrame { name: self.name@, value: self.value@, parent: self.parent }
    }
}

/// The views of a list of bindings.
pub open spec fn bindings_view(s: Seq<Binding>) -> Seq<SpecBinding>
    decreases s,
{
    if s.len() == 0 {
        Seq::empty()
    } else {
        seq![s[0]@] + bindings_view(s.drop_first())
    }
}

/// The view of a binding list is the list of the views.
pub broadcast proof fn lemma_bindings_view(s: Seq<Binding>)
    ensures
        (#[trigger] bindings_view(s)).len() == s.len(),
        forall|i: int| 0 <= i < s.len() ==> bindings_view(s)[i] == s[i]@,
    decreases s,
{
    if s.len() > 0 {
        lemma_bindings_view(s.drop_first());
    }
}

/// The views of a list of frames.
pub open spec fn frames_view(s: Seq<Frame>) -> Seq<SpecFrame>
    decreases s,
{
    if s.len() == 0 {
        Seq::empty()
    } else {
        seq![s[0]@] + frames_view(s.drop_first())
    }
}

/// The view of a frame list is the list of the views.
pub broadcast proof fn lemma_frames_view(s: Seq<Frame>)
    ensures
        (#[trigger] frames_view(s)).len() == s.len(),
        forall|i: int| 0 <= i < s.len() ==> frames_view(s)[i] == s[i]@,
    decreases s,
{
    if s.len() > 0 {
        lemma_frames_view(s.drop_first());
    }
}

/// The environment: the global table and the arena of local scope frames.
#[derive(Debug)]
pub struct Env {
    pub globals: Vec<Binding>,
    pub frames: Vec<Frame>,
}

/// The mathematical mirror of `Env`.
#[verifier::ext_equal]
pub struct SpecEnv {
    pub globals: Seq<SpecBinding>,
    pub frames: Seq<SpecFrame>,
}

impl View for Env {
    type V = SpecEnv;

    open spec fn view(&self) -> SpecEnv {
        SpecEnv { globals: bindings_view(self.globals@), frames: frames_view(self.frames@) }
    }
}

/// Every frame extends a strictly earlier frame: chains point backward, so
/// walking a chain terminates.
pub open spec fn frames_parents_wf(frames: Seq<SpecFrame>) -> bool {
    forall|i: int|
        0 <= i < frames.len() ==> (#[trigger] frames[i].parent matches Some(p) ==> p < i)
}

/// The environment is well formed with respect to a heap of `nt` thunks:
/// chains point backward, every frame's value refers only to earlier frames,
/// and global values live in the empty local scope.
pub open spec fn env_wf(e: SpecEnv, nt: int) -> bool {
    &&& frames_parents_wf(e.frames)
    &&& forall|i: int|
        0 <= i < e.frames.len() ==> value_valid(#[trigger] e.frames[i].value, i, nt)
    &&& forall|i: int| 0 <= i < e.globals.len() ==> value_valid(#[trigger] e.globals[i].value, 0, nt)
}

/// The environment only grows: the globals are unchanged and the frames of
/// the old environment are a prefix of the new one's. Every scope handle
/// into the old environment keeps its meaning in the new one.
pub open spec fn env_le(a: SpecEnv, b: SpecEnv) -> bool {
    &&& a.globals == b.globals
    &&& a.frames.len() <= b.frames.len()
    &&& forall|i: int| 0 <= i < a.frames.len() ==> a.frames[i] == #[trigger] b.frames[i]
}

pub proof fn lemma_env_le_trans(a: SpecEnv, b: SpecEnv, c: SpecEnv)
    requires
        env_le(a, b),
        env_le(b, c),
    ensures
        env_le(a, c),
{
}

/// The bindings visible from `head`, innermost first. Ill-formed chains are
/// cut short, so the definition is total.
pub open spec fn chain(frames: Seq<SpecFrame>, head: Option<usize>) -> Seq<SpecBinding>
    decreases
            (match head {
                Some(h) => h + 1,
                None => 0,
            }),
{
    match head {
        None => Seq::empty(),
        Some(h) => if h < frames.len() && (frames[h as int].parent matches Some(p) ==> p < h) {
            seq![SpecBinding { name: frames[h as int].name, value: frames[h as int].value }]
                + chain(frames, frames[h as int].parent)
        } else {
            Seq::empty()
        },
    }
}

/// The first binding of `name` in a list of bindings, if any.
pub open spec fn lookup_bindings(bs: Seq<SpecBinding>, name: Seq<char>) -> Option<SpecValue>
    decreases bs,
{
    if bs.len() == 0 {
        None
    } else if bs[0].name == name {
        Some(bs[0].value)
    } else {
        lookup_bindings(bs.drop_first(), name)
    }
}

/// The last binding of `name` in the global table, if any: a later global
/// binding of a name replaces an earlier one.
pub open spec fn lookup_globals(globals: Seq<SpecBinding>, name: Seq<char>) -> Option<SpecValue>
    decreases globals,
{
    if globals.len() == 0 {
        None
    } else if globals.last().name == name {
        Some(globals.last().value)
    } else {
        lookup_globals(globals.drop_last(), name)
    }
}

/// Name resolution: the local chain before the globals; absence is `None`,
/// never a default.
pub open spec fn lookup_spec(e: SpecEnv, scope: Scope, name: Seq<char>) -> Option<SpecValue> {
    match lookup_bindings(chain(e.frames, scope.head), name) {
        Some(v) => Some(v),
        None => lookup_globals(e.globals, name),
    }
}

/// The frames that committing `bs` on top of `parent` appends to an arena
/// of `start` frames: each binding extends the one before it.
pub open spec fn frames_of_bindings(start: int, parent: Option<usize>, bs: Seq<SpecBinding>) -> Seq<
    SpecFrame,
> {
    Seq::new(
        bs.len(),
        |j: int|
            SpecFrame {
                name: bs[j].name,
                value: bs[j].value,
                parent: if j == 0 {
                    parent
                } else {
                    Some((start + j - 1) as usize)
                },
            },
    )
}

/// The scope handle after committing `bs`: the last appended frame, or the
/// unchanged parent when there is nothing to commit.
pub open spec fn scope_after_bindings(start: int, parent: Option<usize>, bs: Seq<SpecBinding>) -> Scope {
    if bs.len() == 0 {
        Scope { head: parent }
    } else {
        Scope { head: Some((start + bs.len() - 1) as usize) }
    }
}

/// Appending a frame leaves the chain of every existing scope unchanged.
pub proof fn lemma_chain_push(frames: Seq<SpecFrame>, f: SpecFrame, head: Option<usize>)
    requires
        head matches Some(h) ==> h < frames.len(),
        frames_parents_wf(frames),
    ensures
        chain(frames.push(f), head) == chain(frames, head),
    decreases
            (match head {
                Some(h) => h + 1,
                None => 0,
            }),
{
    match head {
        None => {},
        Some(h) => {
            lemma_chain_push(frames, f, frames[h as int].parent);
            assert(chain(frames.push(f), head) =~= chain(frames, head));
        },
    }
}

/// Growing the environment leaves the chain of every valid old scope, and so
/// every lookup through it, unchanged.
pub proof fn lemma_chain_le(a: SpecEnv, b: SpecEnv, head: Option<usize>)
    requires
        env_le(a, b),
        frames_parents_wf(a.frames),
        head matches Some(h) ==> h < a.frames.len(),
    ensures
        chain(b.frames, head) == chain(a.frames, head),
    decreases
            (match head {
                Some(h) => h + 1,
                None => 0,
            }),
{
    match head {
        None => {
            assert(chain(b.frames, head) =~= chain(a.frames, head));
        },
        Some(h) => {
            assert(a.frames[h as int] == b.frames[h as int]);
            lemma_chain_le(a, b, a.frames[h as int].parent);
            assert(chain(b.frames, head) =~= chain(a.frames, head));
        },
    }
}

impl Env {
    /// The empty environment.
    pub fn new() -> (r: Env)
        ensures
            r@.globals == Seq::<SpecBinding>::empty(),
            r@.frames == Seq::<SpecFrame>::empty(),
    {
        Env { globals: Vec::new(), frames: Vec::new() }
    }

    /// The environment holding exactly the builtin table: strict integer
    /// addition under the name `+`.
    pub fn with_builtins() -> (r: Env)
        ensures
            r@.frames == Seq::<SpecFrame>::empty(),
            r@.globals.len() == 1,
            r@.globals[0].name == "+"@,
            r@.globals[0].value == (SpecValue::Builtin {
                op: BuiltinOp::Add,
                args: Seq::<SpecValue>::empty(),
            }),
    {
        let mut env = Env::new();
        env.add_builtin("+", BuiltinOp::Add);
        env
    }

    /// Appends `op` to the global table under `name`, with no arguments
    /// collected yet. Permitted only while linking.
    pub fn add_builtin(&mut self, name: &str, op: BuiltinOp)
        ensures
            final(self)@.frames == old(self)@.frames,
            final(self)@.globals == old(self)@.globals.push(
                SpecBinding {
                    name: name@,
                    value: SpecValue::Builtin { op, args: Seq::<SpecValue>::empty() },
                },
            ),
    {
        proof {
            broadcast use lemma_bindings_view;

        }
        let b = Binding { name: String::from_str(name), value: Value::builtin(op) };
        self.globals.push(b);
        proof {
            assert(final(self)@.globals =~= old(self)@.globals.push(
                SpecBinding {
                    name: name@,
                    value: SpecValue::Builtin { op, args: Seq::<SpecValue>::empty() },
                },
            ));
            assert(final(self)@.frames =~= old(self)@.frames);
        }
    }

    /// Binds `symbol` in the global table. A later binding of the same name
    /// replaces an earlier one at lookup. Permitted only while linking.
    pub fn add_symbol_mut(&mut self, symbol: Id, value: Value)
        ensures
            final(self)@.frames == old(self)@.frames,
            final(self)@.globals == old(self)@.globals.push(
                (SpecBinding { name: symbol@.name, value: value@ }),
            ),
    {
        proof {
            broadcast use lemma_bindings_view;

        }
        let b = Binding { name: symbol.token.text, value };
        self.globals.push(b);
        proof {
            assert(final(self)@.globals =~= old(self)@.globals.push(
                (SpecBinding { name: symbol@.name, value: value@ }),
            ));
            assert(final(self)@.frames =~= old(self)@.frames);
        }
    }

    /// Extends `scope` with one binding, non-destructively: a fresh frame is
    /// appended and the new handle returned; the old handle and every other
    /// holder of it are unaffected.
    pub fn add_symbol(&mut self, scope: Scope, symbol: Id, value: Value) -> (r: Scope)
        ensures
            final(self)@.globals == old(self)@.globals,
            final(self)@.frames == old(self)@.frames.push(
                (SpecFrame { name: symbol@.name, value: value@, parent: scope.head }),
            ),
            r.head matches Some(h) && h == old(self)@.frames.len(),
    {
        proof {
            broadcast use lemma_frames_view;

        }
        let idx = self.frames.len();
        let f = Frame { name: symbol.token.text, value, parent: scope.head };
        self.frames.push(f);
        proof {
            assert(final(self)@.frames =~= old(self)@.frames.push(
                (SpecFrame { name: symbol@.name, value: value@, parent: scope.head }),
            ));
            assert(final(self)@.globals =~= old(self)@.globals);
        }
        Scope { head: Some(idx) }
    }

    /// As `add_symbol`, for a binding that already carries its name as text.
    pub fn add_binding(&mut self, scope: Scope, binding: Binding) -> (r: Scope)
        ensures
            final(self)@.globals == old(self)@.globals,
            final(self)@.frames == old(self)@.frames.push(
                (SpecFrame { name: binding@.name, value: binding@.value, parent: scope.head }),
            ),
            r.head matches Some(h) && h == old(self)@.frames.len(),
    {
        proof {
            broadcast use lemma_frames_view;

        }
        let idx = self.frames.len();
        let Binding { name, value } = binding;
        let f = Frame { name, value, parent: scope.head };
        self.frames.push(f);
        proof {
            assert(final(self)@.frames =~= old(self)@.frames.push(
                (SpecFrame { name: binding@.name, value: binding@.value, parent: scope.head }),
            ));
            assert(final(self)@.globals =~= old(self)@.globals);
        }
        Scope { head: Some(idx) }
    }

    /// Looks `symbol` up, in the local chain of `scope` before the globals.
    #[verifier::loop_isolation(false)]
    pub fn get_symbol(&self, scope: Scope, symbol: &str) -> (r: Option<Value>)
        requires
            frames_parents_wf(self@.frames),
            scope_valid(scope, self@.frames.len() as int),
        ensures
            r is Some <==> lookup_spec(self@, scope, symbol@) is Some,
            r matches Some(v) ==> lookup_spec(self@, scope, symbol@) == Some(v@),
    {
        proof {
            broadcast use lemma_frames_view, lemma_bindings_view;

        }
        let key = String::from_str(symbol);
        let mut cur: Option<usize> = scope.head;
        loop
            invariant
                frames_parents_wf(self@.frames),
                cur matches Some(h) ==> h < self@.frames.len(),
                lookup_bindings(chain(self@.frames, scope.head), symbol@) == lookup_bindings(
                    chain(self@.frames, cur),
                    symbol@,
                ),
                key@ == symbol@,
            decreases
                    (match cur {
                        Some(h) => h + 1,
                        None => 0,
                    }),
        {
            match cur {
                None => {
                    break ;
                },
                Some(h) => {
                    proof {
                        broadcast use lemma_frames_view;

                    }
                    let f = &self.frames[h];
                    proof {
                        assert(self@.frames[h as int] == f@);
                        assert(chain(self@.frames, cur) =~= seq![
                            SpecBinding {
                                name: self@.frames[h as int].name,
                                value: self@.frames[h as int].value,
                            },
                        ] + chain(self@.frames, self@.frames[h as int].parent));
                    }
                    if f.name == key {
                        return Some(f.value.clone());
                    }
                    proof {
                        assert(chain(self@.frames, cur).drop_first() =~= chain(
                            self@.frames,
                            self@.frames[h as int].parent,
                        ));
                    }
                    cur = f.parent;
                },
            }
        }
        // The local chain is exhausted; the last global binding of the name
        // wins.
        proof {
            assert(self@.globals.subrange(0, self@.globals.len() as int) =~= self@.globals);
        }
        let mut j = self.globals.len();
        while j > 0
            invariant
                j <= self@.globals.len(),
                lookup_globals(self@.globals.subrange(0, j as int), symbol@) == lookup_globals(
                    self@.globals,
                    symbol@,
                ),
                key@ == symbol@,
            decreases j,
        {
            proof {
                broadcast use lemma_bindings_view;

            }
            let b = &self.globals[j - 1];
            proof {
                assert(self@.globals[j - 1] == b@);
                assert(self@.globals.subrange(0, j as int).last() == self@.globals[j - 1]);
            }
            if b.name == key {
                return Some(b.value.clone());
            }
            proof {
                assert(self@.globals.subrange(0, j as int).drop_last() =~= self@.globals.subrange(
                    0,
                    j - 1,
                ));
            }
            j = j - 1;
        }
        proof {
            assert(self@.globals.subrange(0, 0) =~= Seq::<SpecBinding>::empty());
        }
        None
    }

    /// Whether `symbol` resolves in `scope` or the globals.
    pub fn has_symbol(&self, scope: Scope, symbol: &str) -> (r: bool)
        requires
            frames_parents_wf(self@.frames),
            scope_valid(scope, self@.frames.len() as int),
        ensures
            r == (lookup_spec(self@, scope, symbol@) is Some),
    {
        self.get_symbol(scope, symbol).is_some()
    }
}

} // verus!
