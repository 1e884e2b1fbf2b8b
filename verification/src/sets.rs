use vstd::prelude::*;

use crate::id::Id;
use crate::C3Error;

verus! {

/// The candidate sets of one merge: each set is the not-yet-consumed remainder
/// of one parent's linearized path, or of the declared parent order.
#[derive(Debug)]
pub struct Sets {
    sets: Vec<Vec<Id>>,
}

/// What a candidate-set collection looks like in specifications: the outer
/// sequence holds the sets in the order they were supplied; each set is a
/// sequence of identifier names.
pub type SetsView = Seq<Seq<Seq<char>>>;

/// Every candidate set is nonempty.
pub open spec fn sets_wf(ss: SetsView) -> bool {
    forall|i: int| 0 <= i < ss.len() ==> ss[i].len() > 0
}

/// Some set holds the name `x`.
pub open spec fn sets_hold(ss: SetsView, x: Seq<char>) -> bool {
    exists|i: int| 0 <= i < ss.len() && #[trigger] ss[i].contains(x)
}

/// `c` occurs in the tail (everything after the head) of some set.
pub open spec fn occurs_in_tail(ss: SetsView, c: Seq<char>) -> bool {
    exists|i: int| 0 <= i < ss.len() && ss[i].drop_first().contains(c)
}

/// The head of set `i` is an acceptable next element of the merge: it is not
/// demanded to come later by any set.
pub open spec fn solution_at(ss: SetsView, i: int) -> bool {
    !occurs_in_tail(ss, ss[i][0])
}

/// Some set's head is acceptable.
pub open spec fn has_solution(ss: SetsView) -> bool {
    exists|i: int| 0 <= i < ss.len() && solution_at(ss, i)
}

/// `i` is the first set (in supply order) whose head is acceptable.
pub open spec fn first_solution(ss: SetsView, i: int) -> bool {
    &&& 0 <= i < ss.len()
    &&& solution_at(ss, i)
    &&& forall|j: int| 0 <= j < i ==> !solution_at(ss, j)
}

/// `s` with every occurrence of `c` removed, order otherwise kept.
pub open spec fn remove_id(s: Seq<Seq<char>>, c: Seq<char>) -> Seq<Seq<char>>
    decreases s.len(),
{
    if s.len() == 0 {
        Seq::empty()
    } else {
        let rest = remove_id(s.drop_last(), c);
        if s.last() == c {
            rest
        } else {
            rest.push(s.last())
        }
    }
}

/// Every set with every occurrence of `c` removed; sets that become empty are
/// dropped, the order of the remaining sets is kept.
pub open spec fn remove_candidate(ss: SetsView, c: Seq<char>) -> SetsView
    decreases ss.len(),
{
    if ss.len() == 0 {
        Seq::empty()
    } else {
        let rest = remove_candidate(ss.drop_last(), c);
        let fs = remove_id(ss.last(), c);
        if fs.len() > 0 {
            rest.push(fs)
        } else {
            rest
        }
    }
}

/// At most one index can be the first acceptable one.
pub proof fn lemma_first_solution_unique(ss: SetsView, i: int, j: int)
    requires
        first_solution(ss, i),
        first_solution(ss, j),
    ensures
        i == j,
{
}

/// Removing an identifier keeps a set's length, or shrinks it exactly when the
/// identifier occurs; what remains is the other elements in their order.
pub proof fn lemma_remove_id_props(s: Seq<Seq<char>>, c: Seq<char>)
    ensures
        remove_id(s, c).len() <= s.len(),
        s.contains(c) ==> remove_id(s, c).len() < s.len(),
        forall|y: Seq<char>| #[trigger] remove_id(s, c).contains(y) <==> (s.contains(y) && y != c),
    decreases s.len(),
{
    if s.len() == 0 {
        assert forall|y: Seq<char>| #[trigger]
            remove_id(s, c).contains(y) <==> (s.contains(y) && y != c) by {
            assert(!s.contains(y));
        }
    } else {
        let d = s.drop_last();
        let rd = remove_id(d, c);
        lemma_remove_id_props(d, c);
        assert forall|y: Seq<char>| #[trigger]
            remove_id(s, c).contains(y) <==> (s.contains(y) && y != c) by {
            lemma_contains_drop_last(s, y);
            assert(rd.contains(y) <==> (d.contains(y) && y != c));
            if s.last() == c {
                assert(remove_id(s, c) == rd);
            } else {
                lemma_contains_push(rd, s.last(), y);
            }
        }
        if s.contains(c) {
            if s.last() != c {
                lemma_contains_drop_last_ne(s, c);
            }
        }
    }
}

/// An element of a sequence is its last element or an element of the rest.
pub(crate) proof fn lemma_contains_drop_last<A>(s: Seq<A>, y: A)
    requires
        s.len() > 0,
    ensures
        s.contains(y) <==> (y == s.last() || s.drop_last().contains(y)),
{
    if s.contains(y) && y != s.last() {
        let i = choose|i: int| 0 <= i < s.len() && s[i] == y;
        assert(s.drop_last()[i] == y);
    }
    if s.drop_last().contains(y) {
        let i = choose|i: int| 0 <= i < s.drop_last().len() && s.drop_last()[i] == y;
        assert(s[i] == y);
    }
}

/// If an element differs from the last one, it already occurs earlier.
proof fn lemma_contains_drop_last_ne<A>(s: Seq<A>, y: A)
    requires
        s.len() > 0,
        s.contains(y),
        s.last() != y,
    ensures
        s.drop_last().contains(y),
{
    lemma_contains_drop_last(s, y);
}

/// Pushing keeps the old elements and adds the new one.
pub(crate) proof fn lemma_contains_push<A>(s: Seq<A>, x: A, y: A)
    ensures
        s.push(x).contains(y) <==> (y == x || s.contains(y)),
{
    assert(s.push(x)[s.len() as int] == x);
    if s.contains(y) {
        let i = choose|i: int| 0 <= i < s.len() && s[i] == y;
        assert(s.push(x)[i] == y);
    }
    if s.push(x).contains(y) && y != x {
        let i = choose|i: int| 0 <= i < s.push(x).len() && s.push(x)[i] == y;
        if i < s.len() {
            assert(s[i] == y);
        }
    }
}

impl View for Sets {
    type V = SetsView;

    closed spec fn view(&self) -> SetsView {
        self.sets.deep_view()
    }
}

impl Sets {
    /// Build a collection with no candidate sets.
    pub fn new() -> (r: Sets)
        ensures
            r@ == Seq::<Seq<Seq<char>>>::empty(),
            sets_wf(r@),
    {
        let r = Sets { sets: Vec::new() };
        proof {
            assert(r@ =~= Seq::<Seq<Seq<char>>>::empty());
        }
        r
    }

    /// Append one candidate set. An empty set is refused: merging consumes
    /// heads, and a set without a head would stall the merge at once.
    pub fn push(&mut self, set: Vec<Id>) -> (r: Result<(), C3Error>)
        ensures
            set@.len() == 0 ==> (r matches Err(C3Error::PushingEmptySet)) && final(self)@ == old(
                self,
            )@,
            set@.len() > 0 ==> r is Ok && final(self)@ == old(self)@.push(set.deep_view()),
            sets_wf(old(self)@) ==> sets_wf(final(self)@),
    {
        if set.is_empty() {
            Err(C3Error::PushingEmptySet)
        } else {
            self.sets.push(set);
            proof {
                assert(self@ =~= old(self)@.push(self.sets@.last().deep_view()));
            }
            Ok(())
        }
    }

    /// True iff no candidate set remains.
    pub fn is_empty(&self) -> (r: bool)
        ensures
            r == (self@.len() == 0),
    {
        self.sets.is_empty()
    }

    /// The heads of all sets, in supply order.
    fn candidates(&self) -> (r: Vec<Id>)
        requires
            sets_wf(self@),
        ensures
            r@.len() == self@.len(),
            forall|i: int| 0 <= i < r@.len() ==> r.deep_view()[i] == self@[i][0],
    {
        let n = self.sets.len();
        let mut r: Vec<Id> = Vec::new();
        let mut i: usize = 0;
        while i < n
            invariant
                n == self.sets@.len(),
                sets_wf(self@),
                i <= n,
                r@.len() == i,
                forall|j: int| 0 <= j < i ==> r.deep_view()[j] == self@[j][0],
            decreases n - i,
        {
            proof {
                assert(self@[i as int].len() > 0);
                assert(self@[i as int] == self.sets@[i as int].deep_view());
            }
            let ghost rprev = r.deep_view();
            let head = self.sets[i][0].clone();
            proof {
                assert(head@ == self@[i as int][0]);
            }
            r.push(head);
            proof {
                assert(r.deep_view() =~= rprev.push(head@));
            }
            i += 1;
        }
        r
    }

    /// Whether `candidate` is acceptable: it occurs in no set's tail.
    fn is_solution(&self, candidate: &Id) -> (r: Result<bool, C3Error>)
        requires
            sets_wf(self@),
        ensures
            r matches Ok(b) && b == !occurs_in_tail(self@, candidate@),
    {
        let n = self.sets.len();
        let mut i: usize = 0;
        while i < n
            invariant
                n == self.sets@.len(),
                sets_wf(self@),
                i <= n,
                forall|j: int| 0 <= j < i ==> !self@[j].drop_first().contains(candidate@),
            decreases n - i,
        {
            proof {
                assert(self@[i as int].len() > 0);
                assert(self@[i as int] == self.sets@[i as int].deep_view());
            }
            let hit = match crate::in_tail(candidate, self.sets[i].as_slice()) {
                Ok(b) => b,
                Err(e) => {
                    return Err(e);
                },
            };
            if hit {
                return Ok(false);
            }
            i += 1;
        }
        Ok(true)
    }

    /// Remove every occurrence of `solution` from every set; sets that become
    /// empty are dropped.
    fn remove_solution(&mut self, solution: &Id)
        ensures
            final(self)@ == remove_candidate(old(self)@, solution@),
            sets_wf(final(self)@),
    {
        let ghost ss = self@;
        let n = self.sets.len();
        let mut out: Vec<Vec<Id>> = Vec::new();
        let mut i: usize = 0;
        while i < n
            invariant
                n == self.sets@.len(),
                self@ == ss,
                i <= n,
                out.deep_view() == remove_candidate(ss.subrange(0, i as int), solution@),
                sets_wf(out.deep_view()),
            decreases n - i,
        {
            let fs = filter_ne(&self.sets[i], solution);
            proof {
                assert(self@[i as int] == self.sets@[i as int].deep_view());
                assert(ss.subrange(0, i + 1).drop_last() =~= ss.subrange(0, i as int));
                assert(ss.subrange(0, i + 1).last() == ss[i as int]);
            }
            if fs.len() > 0 {
                out.push(fs);
                proof {
                    assert(out.deep_view() =~= remove_candidate(ss.subrange(0, i + 1), solution@));
                }
            } else {
                proof {
                    assert(out.deep_view() =~= remove_candidate(ss.subrange(0, i + 1), solution@));
                }
            }
            i += 1;
        }
        proof {
            assert(ss.subrange(0, n as int) =~= ss);
        }
        self.sets = out;
    }

    /// Find the first acceptable candidate, remove it from every set, and
    /// return it; fail with `NoMoreCandidates` if no head is acceptable.
    #[verifier::loop_isolation(false)]
    pub fn find_solution(&mut self) -> (r: Result<Id, C3Error>)
        requires
            sets_wf(old(self)@),
        ensures
            sets_wf(final(self)@),
            match r {
                Ok(c) => {
                    &&& exists|i: int|
                        #[trigger] first_solution(old(self)@, i) && c@ == old(self)@[i][0]
                    &&& final(self)@ == remove_candidate(old(self)@, c@)
                },
                Err(e) => {
                    &&& e matches C3Error::NoMoreCandidates
                    &&& !has_solution(old(self)@)
                    &&& final(self)@ == old(self)@
                },
            },
    {
        let ghost ss0 = self@;
        let cands = self.candidates();
        let n = cands.len();
        let mut i: usize = 0;
        while i < n
            invariant
                n == cands@.len(),
                n == self@.len(),
                sets_wf(self@),
                self@ == ss0,
                forall|j: int| 0 <= j < i ==> !solution_at(ss0, j),
                forall|j: int| 0 <= j < n ==> cands.deep_view()[j] == self@[j][0],
            decreases n - i,
        {
            proof {
                assert(cands.deep_view()[i as int] == cands@[i as int]@);
            }
            let sol = match self.is_solution(&cands[i]) {
                Ok(b) => b,
                Err(e) => {
                    return Err(e);
                },
            };
            if sol {
                let c = cands[i].clone();
                proof {
                    assert(c@ == ss0[i as int][0]);
                    assert(first_solution(ss0, i as int));
                }
                self.remove_solution(&c);
                proof {
                    assert(first_solution(old(self)@, i as int) && c@ == old(self)@[i as int][0]);
                }
                return Ok(c);
            }
            i += 1;
        }
        Err(C3Error::NoMoreCandidates)
    }
}

/// `set` without any element equal to `x`, order kept.
fn filter_ne(set: &Vec<Id>, x: &Id) -> (r: Vec<Id>)
    ensures
        r.deep_view() == remove_id(set.deep_view(), x@),
{
    let n = set.len();
    let mut r: Vec<Id> = Vec::new();
    let mut i: usize = 0;
    while i < n
        invariant
            n == set@.len(),
            i <= n,
            r.deep_view() == remove_id(set.deep_view().subrange(0, i as int), x@),
        decreases n - i,
    {
        proof {
            let d = set.deep_view();
            assert(d.subrange(0, i + 1).drop_last() =~= d.subrange(0, i as int));
            assert(d.subrange(0, i + 1).last() == d[i as int]);
            assert(d[i as int] == set@[i as int]@);
        }
        if !(set[i] == *x) {
            let e = set[i].clone();
            r.push(e);
            proof {
                assert(r.deep_view() =~= remove_id(set.deep_view().subrange(0, i + 1), x@));
            }
        } else {
            proof {
                assert(r.deep_view() =~= remove_id(set.deep_view().subrange(0, i + 1), x@));
            }
        }
        i += 1;
    }
    proof {
        assert(set.deep_view().subrange(0, n as int) =~= set.deep_view());
    }
    r
}

} // verus!
