use vstd::prelude::*;

use crate::id::Id;

verus! {

/// The runtime state of the cooperative dispatch on one receiver: a stack of
/// traversal contexts, one per active call chain. Each context is the not yet
/// consumed part of a dispatch order, stored most general first, so that the
/// next implementation to run sits at its end.
///
/// The entry point of a dispatched function pushes a fresh context, advances
/// it once and drops it; "call the next implementation" advances the top
/// context without pushing, which continues the same traversal instead of
/// restarting it. A new entry during an active traversal pushes a second
/// context on top, so recursion and re-entrant calls never disturb the outer
/// traversal.
#[derive(Debug)]
pub struct PathStack {
    stack: Vec<Vec<Id>>,
}

/// What one advance step leaves of the stack: the top context loses its last
/// element, everything below stays untouched.
pub open spec fn advance_one(st: Seq<Seq<Seq<char>>>) -> Seq<Seq<Seq<char>>> {
    st.update(st.len() - 1, st.last().drop_last())
}

impl View for PathStack {
    type V = Seq<Seq<Seq<char>>>;

    closed spec fn view(&self) -> Seq<Seq<Seq<char>>> {
        self.stack.deep_view()
    }
}

impl PathStack {
    /// A stack with no active traversal.
    pub fn new() -> (r: PathStack)
        ensures
            r@ == Seq::<Seq<Seq<char>>>::empty(),
    {
        let r = PathStack { stack: Vec::new() };
        proof {
            assert(r@ =~= Seq::<Seq<Seq<char>>>::empty());
        }
        r
    }

    /// The number of active traversal contexts.
    pub fn depth(&self) -> (n: usize)
        ensures
            n == self@.len(),
    {
        self.stack.len()
    }

    /// Begin a traversal: push a fresh context holding the whole dispatch
    /// order, leaving every already active context unchanged.
    pub fn push_path_on_stack(&mut self, path: &[Id])
        ensures
            final(self)@ == old(self)@.push(path.deep_view()),
    {
        let n = path.len();
        let mut ctx: Vec<Id> = Vec::new();
        let mut i: usize = 0;
        while i < n
            invariant
                n == path@.len(),
                i <= n,
                ctx.deep_view().len() == i,
                forall|j: int| 0 <= j < i ==> ctx.deep_view()[j] == path.deep_view()[j],
            decreases n - i,
        {
            let ghost d = ctx.deep_view();
            let e = vstd::slice::slice_index_get(path, i).clone();
            ctx.push(e);
            proof {
                assert(ctx.deep_view() =~= d.push(path@[i as int]@));
            }
            i += 1;
        }
        proof {
            assert(ctx.deep_view() =~= path.deep_view());
        }
        self.stack.push(ctx);
        proof {
            assert(self@ =~= old(self)@.push(path.deep_view()));
        }
    }

    /// End the topmost traversal, restoring the one below it (or none).
    /// Must be called exactly once per push, including on error paths.
    pub fn drop_one_from_stack(&mut self)
        requires
            old(self)@.len() > 0,
        ensures
            final(self)@ == old(self)@.drop_last(),
    {
        let n = self.stack.len();
        self.stack.remove(n - 1);
        proof {
            assert(self@ =~= old(self)@.drop_last());
        }
    }

    /// Take the next implementation's class from the top context: the context
    /// shrinks by its last element, the contexts below stay as they are.
    pub fn pop_from_top_path(&mut self) -> (c: Id)
        requires
            old(self)@.len() > 0,
            old(self)@.last().len() > 0,
        ensures
            c@ == old(self)@.last().last(),
            final(self)@ == advance_one(old(self)@),
    {
        let ghost st0 = self@;
        let n = self.stack.len();
        let mut top = self.stack.remove(n - 1);
        proof {
            assert(top.deep_view() == st0.last());
        }
        let m = top.len();
        let c = top.remove(m - 1);
        proof {
            assert(top.deep_view() =~= st0.last().drop_last());
        }
        self.stack.push(top);
        proof {
            assert(self@ =~= advance_one(st0));
        }
        c
    }
}

/// The stack after `k` advance steps.
pub open spec fn advance_many(st: Seq<Seq<Seq<char>>>, k: nat) -> Seq<Seq<Seq<char>>>
    decreases k,
{
    if k == 0 {
        st
    } else {
        advance_many(advance_one(st), (k - 1) as nat)
    }
}

/// Re-entrancy of the dispatch path stack: beginning a nested traversal,
/// advancing it any number of steps and ending it leaves the stack — and so
/// every outer traversal's position — exactly as it was.
pub proof fn lemma_stack_reentrancy(st: Seq<Seq<Seq<char>>>, path: Seq<Seq<char>>, k: nat)
    requires
        k <= path.len(),
    ensures
        advance_many(st.push(path), k).drop_last() == st,
    decreases k,
{
    if k == 0 {
        assert(st.push(path).drop_last() =~= st);
    } else {
        assert(advance_one(st.push(path)) =~= st.push(path.drop_last()));
        lemma_stack_reentrancy(st, path.drop_last(), (k - 1) as nat);
    }
}

} // verus!
