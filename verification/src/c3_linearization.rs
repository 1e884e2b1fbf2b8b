use vstd::prelude::*;

use crate::c3::{merge_input, strictly_sorted_names, C3};
use crate::id::{lemma_lex_asymmetric, lemma_lex_irreflexive, lex_lt};
use crate::id::Id;
use crate::sets::{
    first_solution, has_solution, remove_candidate, remove_id, sets_wf, solution_at,
    lemma_first_solution_unique, lemma_remove_id_props, Sets, SetsView,
};
use crate::C3Error;

verus! {

/// The number of identifiers held by all candidate sets together.
pub open spec fn total_size(ss: SetsView) -> nat
    decreases ss.len(),
{
    if ss.len() == 0 {
        0
    } else {
        total_size(ss.drop_last()) + ss.last().len()
    }
}

/// Removing a candidate never grows the sets, shrinks the total count when
/// the candidate occurs somewhere, and drops at least one set when an empty
/// set is present.
pub proof fn lemma_remove_candidate_size(ss: SetsView, c: Seq<char>)
    ensures
        remove_candidate(ss, c).len() <= ss.len(),
        total_size(remove_candidate(ss, c)) <= total_size(ss),
        (exists|i: int| 0 <= i < ss.len() && #[trigger] ss[i].contains(c)) ==> total_size(
            remove_candidate(ss, c),
        ) < total_size(ss),
        (exists|i: int| 0 <= i < ss.len() && #[trigger] ss[i].len() == 0) ==> remove_candidate(
            ss,
            c,
        ).len() < ss.len(),
    decreases ss.len(),
{
    if ss.len() == 0 {
    } else {
        let d = ss.drop_last();
        let last = ss.last();
        let fs = remove_id(last, c);
        lemma_remove_candidate_size(d, c);
        lemma_remove_id_props(last, c);
        let rc = remove_candidate(ss, c);
        if fs.len() > 0 {
            assert(rc == remove_candidate(d, c).push(fs));
            assert(rc.drop_last() =~= remove_candidate(d, c));
            assert(rc.last() == fs);
            assert(total_size(rc) == total_size(remove_candidate(d, c)) + fs.len());
        } else {
            assert(rc == remove_candidate(d, c));
        }
        if exists|i: int| 0 <= i < ss.len() && #[trigger] ss[i].contains(c) {
            let i = choose|i: int| 0 <= i < ss.len() && #[trigger] ss[i].contains(c);
            if i == ss.len() - 1 {
                assert(last.contains(c));
                assert(fs.len() < last.len());
            } else {
                assert(d[i].contains(c));
                assert(total_size(remove_candidate(d, c)) < total_size(d));
            }
        }
        if exists|i: int| 0 <= i < ss.len() && #[trigger] ss[i].len() == 0 {
            let i = choose|i: int| 0 <= i < ss.len() && #[trigger] ss[i].len() == 0;
            if i == ss.len() - 1 {
                assert(fs.len() == 0);
            } else {
                assert(d[i].len() == 0);
                assert(remove_candidate(d, c).len() < d.len());
            }
        }
    }
}

/// The C3 merge of a collection of candidate sets: take the head of the first
/// set whose head occurs in no set's tail, remove it everywhere, and repeat;
/// `None` when sets remain but no head is acceptable. The result is a pure
/// function of the sets, which makes every merge reproducible.
pub open spec fn spec_merge(ss: SetsView) -> Option<Seq<Seq<char>>>
    decreases total_size(ss), ss.len(),
{
    if ss.len() == 0 {
        Some(Seq::empty())
    } else if exists|i: int| first_solution(ss, i) {
        let i = choose|i: int| first_solution(ss, i);
        let c = ss[i][0];
        proof {
            lemma_remove_candidate_size(ss, c);
            if ss[i].len() > 0 {
                assert(ss[i].contains(c));
            } else {
                assert(ss[i].len() == 0);
            }
        }
        match spec_merge(remove_candidate(ss, c)) {
            Some(rest) => Some(seq![c] + rest),
            None => None,
        }
    } else {
        None
    }
}

/// Merge the candidate sets, starting the result with `base` itself: the
/// classic C3 step that computes one class's linearized path. Fails with
/// `NoMoreCandidates` exactly when the sets admit no consistent order.
#[verifier::loop_isolation(false)]
pub fn merge(base: &Id, sets: Sets) -> (r: Result<Vec<Id>, C3Error>)
    requires
        sets_wf(sets@),
    ensures
        match r {
            Ok(out) => {
                &&& spec_merge(sets@) matches Some(rest) && out.deep_view() == seq![base@] + rest
            },
            Err(e) => {
                &&& e matches C3Error::NoMoreCandidates
                &&& spec_merge(sets@) is None
            },
        },
{
    let ghost ss0 = sets@;
    let mut s = sets;
    let mut solutions: Vec<Id> = Vec::new();
    solutions.push(base.clone());
    proof {
        assert(solutions.deep_view() =~= Seq::<Seq<char>>::empty().push(base@));
    }
    loop
        invariant
            sets_wf(s@),
            solutions.deep_view().len() >= 1,
            solutions.deep_view()[0] == base@,
            match spec_merge(s@) {
                Some(rest) => spec_merge(ss0) == Some(
                    solutions.deep_view().drop_first() + rest,
                ),
                None => spec_merge(ss0) is None,
            },
        decreases total_size(s@), s@.len(),
    {
        if s.is_empty() {
            proof {
                assert(spec_merge(s@) == Some(Seq::<Seq<char>>::empty()));
                let rest = solutions.deep_view().drop_first();
                assert(rest + Seq::<Seq<char>>::empty() =~= rest);
                assert(solutions.deep_view() =~= seq![base@] + rest);
            }
            return Ok(solutions);
        }
        let ghost sb = s@;
        let c = match s.find_solution() {
            Ok(c) => c,
            Err(e) => {
                proof {
                    assert forall|i: int| !first_solution(sb, i) by {
                        if first_solution(sb, i) {
                            assert(has_solution(sb));
                        }
                    }
                    assert(spec_merge(sb) is None);
                }
                return Err(e);
            },
        };
        proof {
            let i = choose|i: int| #[trigger] first_solution(sb, i) && c@ == sb[i][0];
            let ispec = choose|i: int| first_solution(sb, i);
            lemma_first_solution_unique(sb, i, ispec);
            assert(spec_merge(sb) == match spec_merge(remove_candidate(sb, c@)) {
                Some(rest) => Some(seq![c@] + rest),
                None => None::<Seq<Seq<char>>>,
            });
            // termination: the chosen head is removed from a nonempty set
            assert(sb[i].len() > 0);
            assert(sb[i].contains(c@));
            lemma_remove_candidate_size(sb, c@);
        }
        let ghost dprev = solutions.deep_view();
        solutions.push(c);
        proof {
            assert(solutions.deep_view() =~= dprev.push(c@));
            match spec_merge(s@) {
                Some(rest) => {
                    assert(dprev.drop_first() + (seq![c@] + rest) =~= solutions.deep_view()
                        .drop_first() + rest);
                },
                None => {},
            }
        }
    }
}


/// `s` lists exactly the names of `d`, in strictly ascending order.
pub open spec fn is_sorted_key_seq(s: Seq<Seq<char>>, d: Set<Seq<char>>) -> bool {
    &&& strictly_sorted_names(s)
    &&& forall|k: Seq<char>| #[trigger] s.contains(k) <==> d.contains(k)
}

/// The names of `d` in strictly ascending order: the order in which the
/// engine visits pending classes.
pub open spec fn sorted_keys(d: Set<Seq<char>>) -> Seq<Seq<char>> {
    choose|s: Seq<Seq<char>>| is_sorted_key_seq(s, d)
}

/// Two strictly sorted sequences with the same members are the same sequence.
pub proof fn lemma_sorted_key_seq_unique(s1: Seq<Seq<char>>, s2: Seq<Seq<char>>)
    requires
        strictly_sorted_names(s1),
        strictly_sorted_names(s2),
        forall|k: Seq<char>|
            #![trigger s1.contains(k)]
            #![trigger s2.contains(k)]
            s1.contains(k) <==> s2.contains(k),
    ensures
        s1 == s2,
    decreases s1.len(),
{
    if s1.len() == 0 && s2.len() == 0 {
        assert(s1 =~= s2);
    } else if s1.len() == 0 {
        assert(s2[0] == s2[0]);
        assert(s2.contains(s2[0]));
        assert(false);
    } else if s2.len() == 0 {
        assert(s1[0] == s1[0]);
        assert(s1.contains(s1[0]));
        assert(false);
    } else {
        let a = s1.last();
        let b = s2.last();
        assert(s1[s1.len() - 1] == a);
        assert(s1.contains(a));
        assert(s2[s2.len() - 1] == b);
        assert(s2.contains(b));
        assert(s2.contains(a));
        assert(s1.contains(b));
        if a != b {
            let j = choose|j: int| 0 <= j < s2.len() && s2[j] == a;
            let k = choose|k: int| 0 <= k < s1.len() && s1[k] == b;
            assert(j < s2.len() - 1);
            assert(k < s1.len() - 1);
            assert(lex_lt(s2[j], s2[s2.len() - 1]));
            assert(lex_lt(s1[k], s1[s1.len() - 1]));
            lemma_lex_asymmetric(a, b);
        }
        let d1 = s1.drop_last();
        let d2 = s2.drop_last();
        assert forall|k: Seq<char>|
            #![trigger d1.contains(k)]
            #![trigger d2.contains(k)]
            d1.contains(k) <==> d2.contains(k) by {
            crate::sets::lemma_contains_drop_last(s1, k);
            crate::sets::lemma_contains_drop_last(s2, k);
            if d1.contains(k) {
                assert(s1.contains(k));
                if k == a {
                    let p = choose|p: int| 0 <= p < d1.len() && d1[p] == k;
                    assert(s1[p] == a);
                    assert(lex_lt(s1[p], s1[s1.len() - 1]));
                    lemma_lex_irreflexive(a);
                }
            }
            if d2.contains(k) {
                assert(s2.contains(k));
                assert(s1.contains(k));
                if k == b {
                    let p = choose|p: int| 0 <= p < d2.len() && d2[p] == k;
                    assert(s2[p] == b);
                    assert(lex_lt(s2[p], s2[s2.len() - 1]));
                    lemma_lex_irreflexive(b);
                }
            }
        }
        assert forall|i: int, j: int| 0 <= i < j < d1.len() implies lex_lt(d1[i], d1[j]) by {
            assert(d1[i] == s1[i] && d1[j] == s1[j]);
        }
        assert forall|i: int, j: int| 0 <= i < j < d2.len() implies lex_lt(d2[i], d2[j]) by {
            assert(d2[i] == s2[i] && d2[j] == s2[j]);
        }
        lemma_sorted_key_seq_unique(d1, d2);
        assert(d1.len() == d2.len());
        assert(s1.len() == s2.len());
        assert forall|i: int| 0 <= i < s1.len() implies s1[i] == s2[i] by {
            if i < s1.len() - 1 {
                assert(s1[i] == d1[i] && s2[i] == d2[i]);
            }
        }
        assert(s1 =~= s2);
    }
}

/// A sequence that lists a domain in strictly ascending order is the one that
/// `sorted_keys` denotes.
pub proof fn lemma_sorted_keys_of(s: Seq<Seq<char>>, d: Set<Seq<char>>)
    requires
        is_sorted_key_seq(s, d),
    ensures
        sorted_keys(d) == s,
{
    let t = sorted_keys(d);
    assert(is_sorted_key_seq(t, d));
    lemma_sorted_key_seq_unique(t, s);
}

/// Every parent occurs among the already linearized classes.
pub open spec fn all_parents_solved(parents: Seq<Seq<char>>, solved: Set<Seq<char>>) -> bool {
    forall|j: int| 0 <= j < parents.len() ==> solved.contains(#[trigger] parents[j])
}

/// What one pass over the pending classes leaves behind.
pub enum RoundOutcome {
    /// The pass ran to its end: the pending classes and the linearized
    /// classes it leaves, and whether it linearized at least one class.
    Continue {
        pending: Map<Seq<char>, Seq<Seq<char>>>,
        out: Map<Seq<char>, Seq<Seq<char>>>,
        found: bool,
    },
    /// A merge found no acceptable candidate: the hierarchy is inconsistent.
    MergeFail,
}

/// One pass of the engine over the pending classes listed in `keys`: each
/// class whose declared parents all occur in the `snapshot` taken at the
/// start of the pass is merged against the current `out` and moved from
/// `pending` to `out`, with the class itself prepended to the merge result.
pub open spec fn spec_round(
    keys: Seq<Seq<char>>,
    snapshot: Set<Seq<char>>,
    pending: Map<Seq<char>, Seq<Seq<char>>>,
    out: Map<Seq<char>, Seq<Seq<char>>>,
    found: bool,
) -> RoundOutcome
    decreases keys.len(),
{
    if keys.len() == 0 {
        RoundOutcome::Continue { pending, out, found }
    } else {
        let k = keys[0];
        if !pending.contains_key(k) {
            spec_round(keys.drop_first(), snapshot, pending, out, found)
        } else {
            let parents = pending[k];
            if all_parents_solved(parents, snapshot) {
                match spec_merge(merge_input(out, parents)) {
                    Some(rest) => spec_round(
                        keys.drop_first(),
                        snapshot,
                        pending.remove(k),
                        out.insert(k, seq![k] + rest),
                        true,
                    ),
                    None => RoundOutcome::MergeFail,
                }
            } else {
                spec_round(keys.drop_first(), snapshot, pending, out, found)
            }
        }
    }
}

/// A pass only ever takes classes out of `pending`; if it finds none to
/// linearize it changes nothing, and if it finds one, `pending` shrinks.
pub proof fn lemma_spec_round_props(
    keys: Seq<Seq<char>>,
    snapshot: Set<Seq<char>>,
    pending: Map<Seq<char>, Seq<Seq<char>>>,
    out: Map<Seq<char>, Seq<Seq<char>>>,
    found: bool,
)
    ensures
        match spec_round(keys, snapshot, pending, out, found) {
            RoundOutcome::Continue { pending: p2, out: o2, found: f2 } => {
                &&& forall|k: Seq<char>| #[trigger]
                    p2.contains_key(k) ==> pending.contains_key(k) && p2[k] == pending[k]
                &&& (found ==> f2)
                &&& (!f2 ==> p2 == pending && o2 == out)
                &&& (f2 && !found ==> exists|k: Seq<char>|
                    pending.contains_key(k) && !(#[trigger] p2.contains_key(k)))
            },
            RoundOutcome::MergeFail => true,
        },
    decreases keys.len(),
{
    if keys.len() == 0 {
    } else {
        let k = keys[0];
        if !pending.contains_key(k) {
            lemma_spec_round_props(keys.drop_first(), snapshot, pending, out, found);
        } else {
            let parents = pending[k];
            if all_parents_solved(parents, snapshot) {
                match spec_merge(merge_input(out, parents)) {
                    Some(rest) => {
                        lemma_spec_round_props(
                            keys.drop_first(),
                            snapshot,
                            pending.remove(k),
                            out.insert(k, seq![k] + rest),
                            true,
                        );
                        match spec_round(keys, snapshot, pending, out, found) {
                            RoundOutcome::Continue { pending: p2, out: o2, found: f2 } => {
                                assert(!p2.contains_key(k));
                            },
                            RoundOutcome::MergeFail => {},
                        }
                    },
                    None => {},
                }
            } else {
                lemma_spec_round_props(keys.drop_first(), snapshot, pending, out, found);
            }
        }
    }
}

/// What the whole engine leaves behind.
pub enum LinOutcome {
    /// Every class linearized: the resulting paths.
    Done(Map<Seq<char>, Seq<Seq<char>>>),
    /// A pass resolved nothing while classes remain: the classes left pending
    /// and the paths computed so far.
    Stalled(Map<Seq<char>, Seq<Seq<char>>>, Map<Seq<char>, Seq<Seq<char>>>),
    /// A merge failed: the hierarchy is inconsistent.
    Inconsistent,
}

/// The engine's fixed point: run passes over the pending classes, in sorted
/// order, until everything is linearized, a pass makes no progress, or a
/// merge fails.
pub open spec fn spec_linearize(
    pending: Map<Seq<char>, Seq<Seq<char>>>,
    out: Map<Seq<char>, Seq<Seq<char>>>,
) -> LinOutcome
    decreases pending.dom().len(),
        when pending.dom().finite()
{
    let keys = sorted_keys(pending.dom());
    match spec_round(keys, out.dom(), pending, out, false) {
        RoundOutcome::MergeFail => LinOutcome::Inconsistent,
        RoundOutcome::Continue { pending: p2, out: o2, found } => {
            if !found {
                if p2.dom().len() == 0 {
                    LinOutcome::Done(o2)
                } else {
                    LinOutcome::Stalled(p2, o2)
                }
            } else {
                proof {
                    lemma_spec_round_props(keys, out.dom(), pending, out, false);
                    let k = choose|k: Seq<char>|
                        pending.contains_key(k) && !(#[trigger] p2.contains_key(k));
                    assert(p2.dom().subset_of(pending.dom()));
                    p2.dom().lemma_subset_not_in_lt(pending.dom(), k);
                }
                spec_linearize(p2, o2)
            }
        },
    }
}


/// Linearize the whole declared graph: pass over the pending classes in
/// sorted name order, linearizing every class whose declared parents were all
/// linearized when the pass began, until nothing is pending. The result holds
/// one path per declared class and carries no function or variable
/// contributions. Fails with `NoMoreCandidates` when a merge meets
/// contradictory precedence demands, and with `NoProgress` — naming the
/// classes left pending, sorted — when a full pass resolves nothing, which
/// happens on a parent cycle or a parent that was never declared.
#[verifier::loop_isolation(false)]
pub fn c3_linearization(input: C3) -> (r: Result<C3, C3Error>)
    requires
        input.wf(),
    ensures
        match r {
            Ok(out) => {
                &&& out.wf()
                &&& spec_linearize(input@.classes, Map::empty()) matches LinOutcome::Done(m)
                    && out@.classes == m
                &&& out@.functions == Map::<Seq<char>, Seq<Seq<char>>>::empty()
                &&& out@.variables == Map::<Seq<char>, Seq<Seq<char>>>::empty()
            },
            Err(e) => match spec_linearize(input@.classes, Map::empty()) {
                LinOutcome::Stalled(p, _) => e matches C3Error::NoProgress(cs) && cs.deep_view()
                    == sorted_keys(p.dom()),
                LinOutcome::Inconsistent => e matches C3Error::NoMoreCandidates,
                LinOutcome::Done(_) => false,
            },
        },
{
    let ghost p_init = input@.classes;
    proof {
        input.lemma_view_finite();
    }
    let mut input = input;
    let mut output = C3::new();
    loop
        invariant
            input.wf(),
            output.wf(),
            input@.classes.dom().finite(),
            output@.functions == Map::<Seq<char>, Seq<Seq<char>>>::empty(),
            output@.variables == Map::<Seq<char>, Seq<Seq<char>>>::empty(),
            spec_linearize(input@.classes, output@.classes) == spec_linearize(
                p_init,
                Map::empty(),
            ),
        decreases input@.classes.dom().len(),
    {
        let ghost p0 = input@.classes;
        let ghost o0 = output@.classes;
        let solved = output.all_classes();
        let classes = input.all_classes();
        let ghost keys = classes.deep_view();
        let ghost snapshot = o0.dom();
        proof {
            assert(is_sorted_key_seq(keys, p0.dom()));
            lemma_sorted_keys_of(keys, p0.dom());
            assert(keys.skip(0) =~= keys);
            assert forall|j: int| 0 <= j < keys.len() implies input@.classes.contains_key(
                #[trigger] keys[j],
            ) by {
                assert(keys.contains(keys[j]));
            }
        }
        let mut found = false;
        let n = classes.len();
        let mut i: usize = 0;
        while i < n
            invariant
                i <= n,
                n == keys.len(),
                input.wf(),
                output.wf(),
                input@.classes.dom().finite(),
                output@.functions == Map::<Seq<char>, Seq<Seq<char>>>::empty(),
                output@.variables == Map::<Seq<char>, Seq<Seq<char>>>::empty(),
                snapshot.subset_of(output@.classes.dom()),
                forall|j: int| i <= j < n ==> input@.classes.contains_key(#[trigger] keys[j]),
                spec_round(keys.skip(i as int), snapshot, input@.classes, output@.classes, found)
                    == spec_round(keys, snapshot, p0, o0, false),
            decreases n - i,
        {
            let ghost pcur = input@.classes;
            let ghost ocur = output@.classes;
            let ghost tail = keys.skip(i as int);
            proof {
                assert(tail.len() == n - i);
                assert(tail[0] == keys[i as int]);
                assert(tail.drop_first() =~= keys.skip(i + 1));
                assert(classes.deep_view()[i as int] == classes@[i as int]@);
            }
            let base = &classes[i];
            let parents = match input.path(base) {
                Ok(p) => p,
                Err(_) => vstd::pervasive::unreached(),
            };
            let sl = solved.as_slice();
            let pl = parents.as_slice();
            let sub = crate::is_subset(sl, pl);
            proof {
                assert(sl.deep_view() =~= solved.deep_view());
                assert(pl.deep_view() =~= parents.deep_view());
                assert forall|x: Seq<char>| #[trigger]
                    solved.deep_view().contains(x) <==> snapshot.contains(x) by {}
                if sub {
                    assert forall|j: int|
                        0 <= j < parents.deep_view().len() implies snapshot.contains(
                        #[trigger] parents.deep_view()[j],
                    ) by {
                        assert(solved.deep_view().contains(parents.deep_view()[j]));
                    }
                    assert(all_parents_solved(parents.deep_view(), snapshot));
                } else {
                    let j = choose|j: int|
                        0 <= j < pl.deep_view().len() && !sl.deep_view().contains(
                            #[trigger] pl.deep_view()[j],
                        );
                    assert(!snapshot.contains(parents.deep_view()[j]));
                    assert(!all_parents_solved(parents.deep_view(), snapshot));
                }
            }
            if sub {
                let sets = match output.sets_for(parents) {
                    Ok(s) => s,
                    Err(_) => vstd::pervasive::unreached(),
                };
                proof {
                    assert(sets@ == merge_input(ocur, pcur[keys[i as int]]));
                }
                let solution = match merge(base, sets) {
                    Ok(s) => s,
                    Err(e) => {
                        proof {
                            assert(spec_round(tail, snapshot, pcur, ocur, found)
                                == RoundOutcome::MergeFail);
                            assert(spec_linearize(p0, o0) == LinOutcome::Inconsistent);
                        }
                        return Err(e);
                    },
                };
                match input.remove(base) {
                    Ok(_) => {},
                    Err(_) => {
                        return vstd::pervasive::unreached();
                    },
                }
                let b2 = base.clone();
                output.add(b2, solution);
                found = true;
                proof {
                    let k = keys[i as int];
                    let rest = spec_merge(merge_input(ocur, pcur[k]))->Some_0;
                    assert(solution.deep_view() == seq![k] + rest);
                    assert(input@.classes == pcur.remove(k));
                    assert(output@.classes == ocur.insert(k, seq![k] + rest));
                    assert(spec_round(tail, snapshot, pcur, ocur, false) == spec_round(
                        keys.skip(i + 1),
                        snapshot,
                        input@.classes,
                        output@.classes,
                        true,
                    ));
                    assert(spec_round(tail, snapshot, pcur, ocur, true) == spec_round(
                        keys.skip(i + 1),
                        snapshot,
                        input@.classes,
                        output@.classes,
                        true,
                    ));
                    // later keys are distinct from the removed one, so they
                    // stay pending
                    assert forall|j: int| i + 1 <= j < n implies input@.classes.contains_key(
                        #[trigger] keys[j],
                    ) by {
                        crate::id::lemma_lex_asymmetric(keys[i as int], keys[j]);
                    }
                    assert(input@.classes.dom().subset_of(pcur.dom()));
                    vstd::set_lib::lemma_len_subset(input@.classes.dom(), pcur.dom());
                }
            } else {
                proof {
                    assert(spec_round(tail, snapshot, pcur, ocur, found) == spec_round(
                        keys.skip(i + 1),
                        snapshot,
                        pcur,
                        ocur,
                        found,
                    ));
                }
            }
            i += 1;
        }
        proof {
            assert(keys.skip(n as int).len() == 0);
            assert(spec_round(keys, snapshot, p0, o0, false) == RoundOutcome::Continue {
                pending: input@.classes,
                out: output@.classes,
                found,
            });
        }
        if !found {
            if input.is_empty() {
                proof {
                    assert(spec_linearize(p0, o0) == LinOutcome::Done(output@.classes));
                }
                return Ok(output);
            } else {
                let names = input.all_classes_str();
                proof {
                    assert(is_sorted_key_seq(names.deep_view(), input@.classes.dom()));
                    lemma_sorted_keys_of(names.deep_view(), input@.classes.dom());
                    assert(spec_linearize(p0, o0) == LinOutcome::Stalled(
                        input@.classes,
                        output@.classes,
                    ));
                }
                return Err(C3Error::NoProgress(names));
            }
        }
        proof {
            assert(spec_linearize(p0, o0) == spec_linearize(input@.classes, output@.classes));
            lemma_spec_round_props(keys, snapshot, p0, o0, false);
            let k = choose|k: Seq<char>|
                p0.contains_key(k) && !(#[trigger] input@.classes.contains_key(k));
            assert(input@.classes.dom().subset_of(p0.dom()));
            input@.classes.dom().lemma_subset_not_in_lt(p0.dom(), k);
        }
    }
}

} // verus!
