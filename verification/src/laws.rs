//! The crate-wide laws of the linearization core, each proved once and for
//! all: what a merge returns is a pure function of its candidate sets, keeps
//! every set's relative order, lists each supplied name exactly once, and
//! every linearized path starts with its own class.
use vstd::prelude::*;

use crate::c3_linearization::{
    all_parents_solved, sorted_keys, spec_linearize, spec_merge, spec_round, total_size,
    LinOutcome, RoundOutcome,
};
use crate::c3::{merge_input, parent_path_sets};
use crate::sets::{
    first_solution, lemma_contains_drop_last, lemma_contains_push, lemma_remove_id_props,
    remove_candidate, remove_id, sets_hold, sets_wf, SetsView,
};

verus! {

/// Removing an identifier that does not occur leaves a set unchanged.
proof fn lemma_remove_id_absent(s: Seq<Seq<char>>, c: Seq<char>)
    requires
        !s.contains(c),
    ensures
        remove_id(s, c) == s,
    decreases s.len(),
{
    if s.len() == 0 {
        assert(remove_id(s, c) =~= s);
    } else {
        let d = s.drop_last();
        assert(s[s.len() - 1] == s.last());
        assert(s.contains(s.last()) || s.last() != c) by {
            assert(s[s.len() - 1] == s.last());
        }
        assert(s.last() != c) by {
            if s.last() == c {
                assert(s[s.len() - 1] == c);
            }
        }
        assert(!d.contains(c)) by {
            if d.contains(c) {
                let i = choose|i: int| 0 <= i < d.len() && d[i] == c;
                assert(s[i] == c);
            }
        }
        lemma_remove_id_absent(d, c);
        assert(remove_id(s, c) =~= s);
    }
}

/// Removing an identifier that occurs only at the head takes exactly the
/// head off.
proof fn lemma_remove_id_head(s: Seq<Seq<char>>, c: Seq<char>)
    requires
        s.len() > 0,
        s[0] == c,
        forall|k: int| 1 <= k < s.len() ==> s[k] != c,
    ensures
        remove_id(s, c) == s.drop_first(),
    decreases s.len(),
{
    if s.len() == 1 {
        assert(remove_id(s.drop_last(), c) =~= Seq::<Seq<char>>::empty());
        assert(remove_id(s, c) =~= s.drop_first());
    } else {
        let d = s.drop_last();
        assert(s.last() == s[s.len() - 1]);
        assert(s.last() != c);
        lemma_remove_id_head(d, c);
        assert(remove_id(s, c) == d.drop_first().push(s.last()));
        assert(remove_id(s, c) =~= s.drop_first());
    }
}

/// Removing an identifier keeps a set free of duplicates.
proof fn lemma_remove_id_nodup(s: Seq<Seq<char>>, c: Seq<char>)
    requires
        s.no_duplicates(),
    ensures
        remove_id(s, c).no_duplicates(),
    decreases s.len(),
{
    if s.len() == 0 {
    } else {
        let d = s.drop_last();
        assert(d.no_duplicates());
        lemma_remove_id_nodup(d, c);
        lemma_remove_id_props(d, c);
        if s.last() != c {
            let r = remove_id(d, c).push(s.last());
            assert(!d.contains(s.last())) by {
                if d.contains(s.last()) {
                    let i = choose|i: int| 0 <= i < d.len() && d[i] == s.last();
                    assert(s[i] == s[s.len() - 1]);
                }
            }
            assert(!remove_id(d, c).contains(s.last()));
            assert forall|i: int, j: int| 0 <= i < j < r.len() implies r[i] != r[j] by {
                if j == r.len() - 1 {
                    assert(remove_id(d, c)[i] == r[i]);
                    assert(remove_id(d, c).contains(r[i]));
                }
            }
        }
    }
}

/// Removing a candidate leaves only nonempty sets.
proof fn lemma_remove_candidate_wf(ss: SetsView, c: Seq<char>)
    ensures
        sets_wf(remove_candidate(ss, c)),
    decreases ss.len(),
{
    if ss.len() == 0 {
    } else {
        let d = ss.drop_last();
        lemma_remove_candidate_wf(d, c);
        let rc = remove_candidate(ss, c);
        let fs = remove_id(ss.last(), c);
        if fs.len() > 0 {
            assert forall|i: int| 0 <= i < rc.len() implies rc[i].len() > 0 by {
                if i < rc.len() - 1 {
                    assert(rc[i] == remove_candidate(d, c)[i]);
                }
            }
        }
    }
}

/// Each set left by a removal is what the removal made of one of the sets
/// before it, and every nonempty such result is left.
proof fn lemma_remove_candidate_sets(ss: SetsView, c: Seq<char>)
    ensures
        forall|j: int|
            0 <= j < remove_candidate(ss, c).len() ==> exists|i: int|
                0 <= i < ss.len() && #[trigger] remove_candidate(ss, c)[j] == remove_id(ss[i], c),
        forall|i: int|
            0 <= i < ss.len() && remove_id(#[trigger] ss[i], c).len() > 0 ==> remove_candidate(
                ss,
                c,
            ).contains(remove_id(ss[i], c)),
    decreases ss.len(),
{
    if ss.len() == 0 {
    } else {
        let d = ss.drop_last();
        lemma_remove_candidate_sets(d, c);
        let rc = remove_candidate(ss, c);
        let rd = remove_candidate(d, c);
        let fs = remove_id(ss.last(), c);
        assert forall|j: int| 0 <= j < rc.len() implies exists|i: int|
            0 <= i < ss.len() && #[trigger] rc[j] == remove_id(ss[i], c) by {
            if fs.len() > 0 && j == rc.len() - 1 {
                assert(rc[j] == remove_id(ss[ss.len() - 1], c));
            } else {
                assert(rc[j] == rd[j]);
                let i = choose|i: int| 0 <= i < d.len() && rd[j] == remove_id(d[i], c);
                assert(rc[j] == remove_id(ss[i], c));
            }
        }
        assert forall|i: int|
            0 <= i < ss.len() && remove_id(#[trigger] ss[i], c).len() > 0 implies rc.contains(
            remove_id(ss[i], c),
        ) by {
            if i == ss.len() - 1 {
                assert(rc[rc.len() - 1] == remove_id(ss[i], c));
            } else {
                assert(d[i] == ss[i]);
                assert(rd.contains(remove_id(ss[i], c)));
                if fs.len() > 0 {
                    lemma_contains_push(rd, fs, remove_id(ss[i], c));
                }
            }
        }
    }
}

/// The names held after a removal are the names held before, minus the
/// removed one.
proof fn lemma_remove_candidate_contains(ss: SetsView, c: Seq<char>)
    ensures
        forall|x: Seq<char>|
            #![trigger sets_hold(remove_candidate(ss, c), x)]
            #![trigger sets_hold(ss, x)]
            sets_hold(remove_candidate(ss, c), x) <==> (x != c && sets_hold(ss, x)),
    decreases ss.len(),
{
    if ss.len() == 0 {
    } else {
        let d = ss.drop_last();
        lemma_remove_candidate_contains(d, c);
        let rc = remove_candidate(ss, c);
        let rd = remove_candidate(d, c);
        let fs = remove_id(ss.last(), c);
        lemma_remove_id_props(ss.last(), c);
        assert forall|x: Seq<char>| sets_hold(rc, x) implies (x != c && sets_hold(ss, x)) by {
            let j = choose|j: int| 0 <= j < rc.len() && #[trigger] rc[j].contains(x);
            if fs.len() > 0 && j == rc.len() - 1 {
                assert(fs.contains(x));
                assert(ss[ss.len() - 1].contains(x));
            } else {
                assert(rc[j] == rd[j]);
                assert(sets_hold(rd, x));
                assert(sets_hold(d, x));
                let i = choose|i: int| 0 <= i < d.len() && #[trigger] d[i].contains(x);
                assert(ss[i].contains(x));
            }
        }
        assert forall|x: Seq<char>| (x != c && sets_hold(ss, x)) implies sets_hold(rc, x) by {
            let i = choose|i: int| 0 <= i < ss.len() && #[trigger] ss[i].contains(x);
            if i == ss.len() - 1 {
                assert(fs.contains(x));
                assert(fs.len() > 0);
                assert(rc[rc.len() - 1].contains(x));
            } else {
                assert(d[i].contains(x));
                assert(sets_hold(d, x));
                assert(sets_hold(rd, x));
                let j = choose|j: int| 0 <= j < rd.len() && #[trigger] rd[j].contains(x);
                assert(rc[j].contains(x));
            }
        }
    }
}

/// Law (merge output): a
/// successful merge of nonempty sets lists exactly the names the sets
/// supplied, each exactly once.
pub proof fn lemma_merge_elements(ss: SetsView)
    requires
        sets_wf(ss),
    ensures
        match spec_merge(ss) {
            Some(out) => {
                &&& out.no_duplicates()
                &&& forall|x: Seq<char>| #[trigger] out.contains(x) <==> sets_hold(ss, x)
            },
            None => true,
        },
    decreases total_size(ss), ss.len(),
{
    if ss.len() == 0 {
        match spec_merge(ss) {
            Some(out) => {
                assert(out =~= Seq::<Seq<char>>::empty());
            },
            None => {},
        }
    } else if exists|i: int| first_solution(ss, i) {
        let isol = choose|i: int| first_solution(ss, i);
        let c = ss[isol][0];
        let rc = remove_candidate(ss, c);
        crate::c3_linearization::lemma_remove_candidate_size(ss, c);
        assert(ss[isol].len() > 0);
        assert(ss[isol].contains(c));
        lemma_remove_candidate_wf(ss, c);
        lemma_remove_candidate_contains(ss, c);
        lemma_merge_elements(rc);
        match spec_merge(rc) {
            Some(rest) => {
                let out = seq![c] + rest;
                assert(spec_merge(ss) == Some(out));
                assert(out[0] == c);
                assert(!rest.contains(c)) by {
                    if rest.contains(c) {
                        assert(sets_hold(rc, c));
                    }
                }
                assert forall|p: int, q: int| 0 <= p < q < out.len() implies out[p] != out[q] by {
                    if p == 0 {
                        assert(out[q] == rest[q - 1]);
                        assert(rest.contains(rest[q - 1]));
                    } else {
                        assert(out[p] == rest[p - 1] && out[q] == rest[q - 1]);
                    }
                }
                assert forall|x: Seq<char>| #[trigger] out.contains(x) <==> sets_hold(ss, x) by {
                    if out.contains(x) {
                        let p = choose|p: int| 0 <= p < out.len() && out[p] == x;
                        if p == 0 {
                            assert(ss[isol].contains(x));
                            assert(sets_hold(ss, x));
                        } else {
                            assert(rest[p - 1] == x);
                            assert(rest.contains(x));
                        }
                    }
                    if sets_hold(ss, x) {
                        if x == c {
                            assert(out[0] == x);
                        } else {
                            assert(sets_hold(rc, x));
                            assert(rest.contains(x));
                            let p = choose|p: int| 0 <= p < rest.len() && rest[p] == x;
                            assert(out[p + 1] == x);
                        }
                    }
                }
            },
            None => {},
        }
    }
}


/// `a` occurs inside `b` in order: `b` read left to right passes every
/// element of `a` in turn.
pub open spec fn is_subsequence(a: Seq<Seq<char>>, b: Seq<Seq<char>>) -> bool
    decreases a.len() + b.len(),
{
    if a.len() == 0 {
        true
    } else if b.len() == 0 {
        false
    } else if a[0] == b[0] {
        is_subsequence(a.drop_first(), b.drop_first())
    } else {
        is_subsequence(a, b.drop_first())
    }
}

/// Dropping the first element keeps a subsequence a subsequence.
proof fn lemma_subseq_drop_head(a: Seq<Seq<char>>, b: Seq<Seq<char>>)
    requires
        is_subsequence(a, b),
        a.len() > 0,
    ensures
        is_subsequence(a.drop_first(), b),
    decreases a.len() + b.len(),
{
    let a2 = a.drop_first();
    if a[0] == b[0] {
        if a2.len() == 0 {
        } else if a2[0] == b[0] {
            lemma_subseq_drop_head(a2, b.drop_first());
        } else {
        }
    } else {
        lemma_subseq_drop_head(a, b.drop_first());
        if a2.len() == 0 {
        } else if a2[0] == b[0] {
            lemma_subseq_drop_head(a2, b.drop_first());
        } else {
        }
    }
}

/// A subsequence stays one when the larger sequence grows at the front.
proof fn lemma_subseq_prepend(a: Seq<Seq<char>>, b: Seq<Seq<char>>, x: Seq<char>)
    requires
        is_subsequence(a, b),
    ensures
        is_subsequence(a, seq![x] + b),
{
    let t = seq![x] + b;
    assert(t.drop_first() =~= b);
    if a.len() == 0 {
    } else if a[0] == x {
        lemma_subseq_drop_head(a, b);
    } else {
    }
}

/// Law (local precedence order, the heart of monotonicity): a
/// successful merge keeps the relative order of every candidate set — each
/// parent's path and the declared parent order reappear in the result as
/// subsequences.
pub proof fn lemma_merge_preserves_order(ss: SetsView)
    requires
        sets_wf(ss),
        forall|i: int| 0 <= i < ss.len() ==> (#[trigger] ss[i]).no_duplicates(),
    ensures
        match spec_merge(ss) {
            Some(out) => forall|i: int|
                0 <= i < ss.len() ==> is_subsequence(#[trigger] ss[i], out),
            None => true,
        },
    decreases total_size(ss), ss.len(),
{
    if ss.len() == 0 {
    } else if exists|i: int| first_solution(ss, i) {
        let isol = choose|i: int| first_solution(ss, i);
        let c = ss[isol][0];
        let rc = remove_candidate(ss, c);
        crate::c3_linearization::lemma_remove_candidate_size(ss, c);
        assert(ss[isol].len() > 0);
        assert(ss[isol].contains(c));
        lemma_remove_candidate_wf(ss, c);
        lemma_remove_candidate_sets(ss, c);
        assert forall|j: int| 0 <= j < rc.len() implies (#[trigger] rc[j]).no_duplicates() by {
            let i = choose|i: int| 0 <= i < ss.len() && rc[j] == remove_id(ss[i], c);
            lemma_remove_id_nodup(ss[i], c);
        }
        lemma_merge_preserves_order(rc);
        match spec_merge(rc) {
            Some(rest) => {
                let out = seq![c] + rest;
                assert(spec_merge(ss) == Some(out));
                assert forall|i: int| 0 <= i < ss.len() implies is_subsequence(
                    #[trigger] ss[i],
                    out,
                ) by {
                    let si = ss[i];
                    let ri = remove_id(si, c);
                    // a solution never occurs in any tail, so within one set
                    // it can only be the head
                    assert(!si.drop_first().contains(c)) by {
                        assert(!crate::sets::occurs_in_tail(ss, c)) by {
                            assert(crate::sets::solution_at(ss, isol));
                        }
                    }
                    if si[0] == c {
                        assert forall|k: int| 1 <= k < si.len() implies si[k] != c by {
                            if si[k] == c {
                                assert(si.drop_first()[k - 1] == c);
                            }
                        }
                        lemma_remove_id_head(si, c);
                        assert(out[0] == c);
                        assert(si.drop_first() == ri);
                        if ri.len() > 0 {
                            assert(rc.contains(ri));
                            let j = choose|j: int| 0 <= j < rc.len() && rc[j] == ri;
                            assert(is_subsequence(ri, rest));
                            assert(out.drop_first() =~= rest);
                            assert(is_subsequence(si, out));
                        } else {
                            assert(si.len() == 1);
                            assert(out.drop_first() =~= rest);
                            assert(si.drop_first().len() == 0);
                            assert(is_subsequence(si.drop_first(), out.drop_first()));
                            assert(is_subsequence(si, out));
                        }
                    } else {
                        assert(!si.contains(c)) by {
                            if si.contains(c) {
                                let k = choose|k: int| 0 <= k < si.len() && si[k] == c;
                                assert(k > 0);
                                assert(si.drop_first()[k - 1] == c);
                            }
                        }
                        lemma_remove_id_absent(si, c);
                        assert(ri == si);
                        assert(si.len() > 0);
                        assert(rc.contains(si));
                        let j = choose|j: int| 0 <= j < rc.len() && rc[j] == si;
                        assert(is_subsequence(si, rest));
                        lemma_subseq_prepend(si, rest, c);
                        assert(seq![c] + rest =~= out);
                    }
                }
            },
            None => {},
        }
    }
}

/// Every path a pass inserts begins with its own class.
proof fn lemma_round_paths_begin_with_self(
    keys: Seq<Seq<char>>,
    snapshot: Set<Seq<char>>,
    pending: Map<Seq<char>, Seq<Seq<char>>>,
    out: Map<Seq<char>, Seq<Seq<char>>>,
    found: bool,
)
    requires
        forall|k: Seq<char>| #[trigger]
            out.contains_key(k) ==> out[k].len() > 0 && out[k][0] == k,
    ensures
        match spec_round(keys, snapshot, pending, out, found) {
            RoundOutcome::Continue { pending: p2, out: o2, found: f2 } => forall|k: Seq<char>|
                #[trigger] o2.contains_key(k) ==> o2[k].len() > 0 && o2[k][0] == k,
            RoundOutcome::MergeFail => true,
        },
    decreases keys.len(),
{
    if keys.len() == 0 {
    } else {
        let k = keys[0];
        if !pending.contains_key(k) {
            lemma_round_paths_begin_with_self(keys.drop_first(), snapshot, pending, out, found);
        } else {
            let parents = pending[k];
            if crate::c3_linearization::all_parents_solved(parents, snapshot) {
                match spec_merge(crate::c3::merge_input(out, parents)) {
                    Some(rest) => {
                        let o2 = out.insert(k, seq![k] + rest);
                        assert forall|x: Seq<char>| #[trigger]
                            o2.contains_key(x) implies o2[x].len() > 0 && o2[x][0] == x by {
                            if x == k {
                                assert(o2[k] == seq![k] + rest);
                                assert(o2[k][0] == k);
                            }
                        }
                        lemma_round_paths_begin_with_self(
                            keys.drop_first(),
                            snapshot,
                            pending.remove(k),
                            o2,
                            true,
                        );
                    },
                    None => {},
                }
            } else {
                lemma_round_paths_begin_with_self(
                    keys.drop_first(),
                    snapshot,
                    pending,
                    out,
                    found,
                );
            }
        }
    }
}

/// Law (path shape): whatever the engine returns, every
/// linearized path begins with the class it belongs to.
pub proof fn lemma_linearize_paths_begin_with_self(
    pending: Map<Seq<char>, Seq<Seq<char>>>,
    out: Map<Seq<char>, Seq<Seq<char>>>,
)
    requires
        pending.dom().finite(),
        forall|k: Seq<char>| #[trigger]
            out.contains_key(k) ==> out[k].len() > 0 && out[k][0] == k,
    ensures
        match spec_linearize(pending, out) {
            LinOutcome::Done(m) => forall|k: Seq<char>| #[trigger]
                m.contains_key(k) ==> m[k].len() > 0 && m[k][0] == k,
            LinOutcome::Stalled(_, o) => forall|k: Seq<char>| #[trigger]
                o.contains_key(k) ==> o[k].len() > 0 && o[k][0] == k,
            LinOutcome::Inconsistent => true,
        },
    decreases pending.dom().len(),
{
    let keys = crate::c3_linearization::sorted_keys(pending.dom());
    lemma_round_paths_begin_with_self(keys, out.dom(), pending, out, false);
    match spec_round(keys, out.dom(), pending, out, false) {
        RoundOutcome::MergeFail => {},
        RoundOutcome::Continue { pending: p2, out: o2, found } => {
            if found {
                crate::c3_linearization::lemma_spec_round_props(keys, out.dom(), pending, out,
                    false);
                let k = choose|k: Seq<char>|
                    pending.contains_key(k) && !(#[trigger] p2.contains_key(k));
                assert(p2.dom().subset_of(pending.dom()));
                p2.dom().lemma_subset_not_in_lt(pending.dom(), k);
                vstd::set_lib::lemma_len_subset(p2.dom(), pending.dom());
                lemma_linearize_paths_begin_with_self(p2, o2);
            }
        },
    }
}

/// Law (merge determinism): the merge result is a pure
/// function of the candidate sets — identical input sets, in the same order,
/// always yield the identical output sequence. `merge` returns exactly
/// `spec_merge` of its input, so two runs on equal sets cannot differ.
pub proof fn lemma_merge_deterministic(a: SetsView, b: SetsView)
    requires
        a == b,
    ensures
        spec_merge(a) == spec_merge(b),
{
}

/// Law (idempotence): linearizing an unmodified graph a second
/// time yields identical paths — the engine's outcome is a pure function of
/// the declared classes, and `c3_linearization` returns exactly that
/// function's value.
pub proof fn lemma_linearization_deterministic(
    a: Map<Seq<char>, Seq<Seq<char>>>,
    b: Map<Seq<char>, Seq<Seq<char>>>,
)
    requires
        a == b,
    ensures
        spec_linearize(a, Map::empty()) == spec_linearize(b, Map::empty()),
{
}


/// Being-a-subsequence composes.
pub proof fn lemma_subsequence_transitive(
    a: Seq<Seq<char>>,
    b: Seq<Seq<char>>,
    c: Seq<Seq<char>>,
)
    requires
        is_subsequence(a, b),
        is_subsequence(b, c),
    ensures
        is_subsequence(a, c),
    decreases a.len() + b.len() + c.len(),
{
    if a.len() == 0 {
    } else {
        if b[0] == c[0] {
            if a[0] == b[0] {
                lemma_subsequence_transitive(a.drop_first(), b.drop_first(), c.drop_first());
            } else {
                lemma_subsequence_transitive(a, b.drop_first(), c.drop_first());
                if a[0] == c[0] {
                    lemma_subseq_drop_head(a, c.drop_first());
                }
            }
        } else {
            lemma_subsequence_transitive(a, b, c.drop_first());
            if a[0] == c[0] {
                lemma_subseq_drop_head(a, c.drop_first());
            }
        }
    }
}

/// What the merge input of one class is made of: the declared parent list as
/// its last set, preceded by the parents' nonempty paths; and each parent's
/// nonempty path occurs among the sets.
proof fn lemma_merge_input_sets(m: Map<Seq<char>, Seq<Seq<char>>>, bases: Seq<Seq<char>>)
    ensures
        forall|j: int|
            0 <= j < crate::c3::parent_path_sets(m, bases).len() ==> exists|p: Seq<char>|
                bases.contains(p) && #[trigger] crate::c3::parent_path_sets(m, bases)[j] == m[p]
                    && m[p].len() > 0,
        forall|p: Seq<char>| #[trigger]
            bases.contains(p) && m[p].len() > 0 ==> crate::c3::parent_path_sets(
                m,
                bases,
            ).contains(m[p]),
    decreases bases.len(),
{
    if bases.len() == 0 {
    } else {
        let d = bases.drop_last();
        lemma_merge_input_sets(m, d);
        let pps = crate::c3::parent_path_sets(m, bases);
        let ppd = crate::c3::parent_path_sets(m, d);
        assert forall|j: int| 0 <= j < pps.len() implies exists|p: Seq<char>|
            bases.contains(p) && #[trigger] pps[j] == m[p] && m[p].len() > 0 by {
            if m[bases.last()].len() > 0 && j == pps.len() - 1 {
                assert(bases[bases.len() - 1] == bases.last());
                assert(bases.contains(bases.last()));
                assert(pps[j] == m[bases.last()]);
            } else {
                assert(pps[j] == ppd[j]);
                let p = choose|p: Seq<char>| d.contains(p) && ppd[j] == m[p] && m[p].len() > 0;
                let q = choose|q: int| 0 <= q < d.len() && d[q] == p;
                assert(bases[q] == p);
                assert(bases.contains(p));
            }
        }
        assert forall|p: Seq<char>| #[trigger]
            bases.contains(p) && m[p].len() > 0 implies pps.contains(m[p]) by {
            let q = choose|q: int| 0 <= q < bases.len() && bases[q] == p;
            if q == bases.len() - 1 {
                if m[bases.last()].len() > 0 {
                    assert(pps[pps.len() - 1] == m[p]);
                }
            } else {
                assert(d[q] == p);
                assert(d.contains(p));
                assert(ppd.contains(m[p]));
                if m[bases.last()].len() > 0 {
                    lemma_contains_push(ppd, m[bases.last()], m[p]);
                }
            }
        }
    }
}


/// Every name on the stored path of `k` is itself a linearized class.
pub open spec fn path_elems_known(out: Map<Seq<char>, Seq<Seq<char>>>, k: Seq<char>) -> bool {
    forall|j: int| 0 <= j < out[k].len() ==> out.dom().contains(#[trigger] out[k][j])
}

/// The linearized side is well formed: every stored path is free of
/// duplicates and mentions only linearized classes.
pub open spec fn out_wf(out: Map<Seq<char>, Seq<Seq<char>>>) -> bool {
    forall|k: Seq<char>| #[trigger]
        out.contains_key(k) ==> out[k].no_duplicates() && path_elems_known(out, k)
}

/// Monotonicity at one class: its declared parent order, and the whole path
/// of each of its parents, reappear in its own path in unchanged relative
/// order.
pub open spec fn monotone_at(
    decl: Map<Seq<char>, Seq<Seq<char>>>,
    out: Map<Seq<char>, Seq<Seq<char>>>,
    k: Seq<char>,
) -> bool {
    &&& is_subsequence(decl[k], out[k])
    &&& forall|j: int|
        0 <= j < decl[k].len() ==> out.contains_key(#[trigger] decl[k][j]) && is_subsequence(
            out[decl[k][j]],
            out[k],
        )
}

/// Monotonicity of a linearized side against the declared graph.
pub open spec fn monotone_in(
    decl: Map<Seq<char>, Seq<Seq<char>>>,
    out: Map<Seq<char>, Seq<Seq<char>>>,
) -> bool {
    forall|k: Seq<char>| #[trigger]
        out.contains_key(k) ==> decl.contains_key(k) && monotone_at(decl, out, k)
}

/// Every name on the stored path of `k` is accounted for: it is `k` itself,
/// a declared parent of `k`, or on a declared parent's own path. Unrolled
/// along parent edges, a path holds nothing but transitive ancestors.
pub open spec fn path_bounded(
    decl: Map<Seq<char>, Seq<Seq<char>>>,
    out: Map<Seq<char>, Seq<Seq<char>>>,
    k: Seq<char>,
) -> bool {
    forall|j: int|
        0 <= j < out[k].len() ==> out[k][j] == k || decl[k].contains(#[trigger] out[k][j])
            || exists|q: int| 0 <= q < decl[k].len() && out[decl[k][q]].contains(out[k][j])
}

/// The engine's state invariant: what is pending carries its declared
/// parents and is not yet linearized, and the linearized side is well formed
/// and monotone.
pub open spec fn engine_inv(
    decl: Map<Seq<char>, Seq<Seq<char>>>,
    pending: Map<Seq<char>, Seq<Seq<char>>>,
    out: Map<Seq<char>, Seq<Seq<char>>>,
) -> bool {
    &&& forall|k: Seq<char>| #[trigger]
        pending.contains_key(k) ==> decl.contains_key(k) && pending[k] == decl[k]
    &&& forall|k: Seq<char>| #[trigger] pending.contains_key(k) ==> !out.contains_key(k)
    &&& forall|k: Seq<char>| #[trigger] out.contains_key(k) ==> decl.contains_key(k)
    &&& out_wf(out)
    &&& monotone_in(decl, out)
    &&& forall|k: Seq<char>| #[trigger] out.contains_key(k) ==> path_bounded(decl, out, k)
}

/// One pass keeps the engine invariant, and with it monotonicity.
proof fn lemma_round_monotone(
    keys: Seq<Seq<char>>,
    snapshot: Set<Seq<char>>,
    pending: Map<Seq<char>, Seq<Seq<char>>>,
    out: Map<Seq<char>, Seq<Seq<char>>>,
    found: bool,
    decl: Map<Seq<char>, Seq<Seq<char>>>,
)
    requires
        engine_inv(decl, pending, out),
        snapshot.subset_of(out.dom()),
        forall|k: Seq<char>| #[trigger] decl.contains_key(k) ==> decl[k].no_duplicates(),
    ensures
        match spec_round(keys, snapshot, pending, out, found) {
            RoundOutcome::Continue { pending: p2, out: o2, found: f2 } => engine_inv(decl, p2, o2)
                && snapshot.subset_of(o2.dom()),
            RoundOutcome::MergeFail => true,
        },
    decreases keys.len(),
{
    if keys.len() == 0 {
    } else {
        let k = keys[0];
        if !pending.contains_key(k) {
            lemma_round_monotone(keys.drop_first(), snapshot, pending, out, found, decl);
        } else {
            let parents = pending[k];
            if all_parents_solved(parents, snapshot) {
                let mi = merge_input(out, parents);
                let pps = parent_path_sets(out, parents);
                match spec_merge(mi) {
                    Some(rest) => {
                        lemma_merge_input_sets(out, parents);
                        if parents.len() > 0 {
                            assert(mi.len() == pps.len() + 1);
                            assert(mi[pps.len() as int] == parents);
                            assert(forall|j: int| 0 <= j < pps.len() ==> mi[j] == pps[j]);
                        } else {
                            assert(parent_path_sets(out, parents) =~= Seq::<Seq<Seq<char>>>::empty());
                            assert(mi =~= Seq::<Seq<Seq<char>>>::empty());
                        }
                        // each parent occurs among the linearized classes
                        assert forall|j: int| 0 <= j < parents.len() implies out.contains_key(
                            #[trigger] parents[j],
                        ) by {
                            assert(snapshot.contains(parents[j]));
                        }
                        // the candidate sets are nonempty and free of
                        // duplicates: the parents' stored paths and the
                        // declared parent order itself
                        assert forall|j: int| 0 <= j < mi.len() implies (#[trigger] mi[j]).len()
                            > 0 && mi[j].no_duplicates() by {
                            if j < pps.len() {
                                let p = choose|p: Seq<char>|
                                    parents.contains(p) && pps[j] == out[p] && out[p].len() > 0;
                                let q = choose|q: int| 0 <= q < parents.len() && parents[q] == p;
                                assert(out.contains_key(p));
                            } else {
                                assert(mi[j] == parents);
                                assert(parents == decl[k]);
                            }
                        }
                        lemma_merge_preserves_order(mi);
                        lemma_merge_elements(mi);
                        let path = seq![k] + rest;
                        let o2 = out.insert(k, path);
                        let p2 = pending.remove(k);
                        // everything merged is an already linearized name
                        assert forall|x: Seq<char>| #[trigger]
                            rest.contains(x) implies out.dom().contains(x) by {
                            assert(sets_hold(mi, x));
                            let j = choose|j: int| 0 <= j < mi.len() && #[trigger] mi[j].contains(x);
                            if j < pps.len() {
                                let p = choose|p: Seq<char>|
                                    parents.contains(p) && pps[j] == out[p] && out[p].len() > 0;
                                let q = choose|q: int| 0 <= q < parents.len() && parents[q] == p;
                                assert(out.contains_key(p));
                                let jj = choose|jj: int| 0 <= jj < out[p].len() && out[p][jj] == x;
                                assert(out.dom().contains(out[p][jj]));
                            } else {
                                let q = choose|q: int| 0 <= q < parents.len() && parents[q] == x;
                                assert(snapshot.contains(x));
                            }
                        }
                        assert(!rest.contains(k));
                        assert(path[0] == k);
                        assert(path.no_duplicates()) by {
                            assert forall|a: int, b: int| 0 <= a < b < path.len() implies path[a]
                                != path[b] by {
                                if a == 0 {
                                    assert(path[b] == rest[b - 1]);
                                    assert(rest.contains(rest[b - 1]));
                                } else {
                                    assert(path[a] == rest[a - 1] && path[b] == rest[b - 1]);
                                }
                            }
                        }
                        // the new path mentions only linearized classes
                        assert(path_elems_known(o2, k)) by {
                            assert forall|j: int| 0 <= j < o2[k].len() implies o2.dom().contains(
                                #[trigger] o2[k][j],
                            ) by {
                                if j > 0 {
                                    assert(o2[k][j] == rest[j - 1]);
                                    assert(rest.contains(rest[j - 1]));
                                }
                            }
                        }
                        assert(out_wf(o2)) by {
                            assert forall|x: Seq<char>| #[trigger]
                                o2.contains_key(x) implies o2[x].no_duplicates()
                                && path_elems_known(o2, x) by {
                                if x != k {
                                    assert(out.contains_key(x));
                                    assert(o2[x] == out[x]);
                                    assert(path_elems_known(out, x));
                                    assert forall|j: int|
                                        0 <= j < o2[x].len() implies o2.dom().contains(
                                        #[trigger] o2[x][j],
                                    ) by {
                                        assert(out.dom().contains(out[x][j]));
                                    }
                                }
                            }
                        }
                        // monotonicity at the new class
                        assert(is_subsequence(parents, path)) by {
                            if parents.len() > 0 {
                                assert(is_subsequence(mi[pps.len() as int], rest));
                                lemma_subseq_prepend(parents, rest, k);
                                assert(seq![k] + rest =~= path);
                            }
                        }
                        assert forall|j: int| 0 <= j < parents.len() implies o2.contains_key(
                            #[trigger] parents[j],
                        ) && is_subsequence(o2[parents[j]], path) by {
                            let p = parents[j];
                            assert(out.contains_key(p));
                            assert(p != k);
                            assert(o2[p] == out[p]);
                            if out[p].len() > 0 {
                                assert(parents.contains(p));
                                assert(pps.contains(out[p]));
                                let q = choose|q: int| 0 <= q < pps.len() && pps[q] == out[p];
                                assert(mi[q] == out[p]);
                                assert(is_subsequence(mi[q], rest));
                                lemma_subseq_prepend(out[p], rest, k);
                                assert(seq![k] + rest =~= path);
                            } else {
                                assert(is_subsequence(out[p], path));
                            }
                        }
                        assert forall|x: Seq<char>| #[trigger]
                            o2.contains_key(x) implies path_bounded(decl, o2, x) by {
                            if x == k {
                                assert forall|j: int|
                                    0 <= j < o2[k].len() implies o2[k][j] == k || decl[k].contains(
                                    #[trigger] o2[k][j],
                                ) || exists|q: int|
                                    0 <= q < decl[k].len() && o2[decl[k][q]].contains(o2[k][j]) by {
                                    if j > 0 {
                                        let y = o2[k][j];
                                        assert(y == rest[j - 1]);
                                        assert(rest.contains(y));
                                        assert(sets_hold(mi, y));
                                        let jj = choose|jj: int|
                                            0 <= jj < mi.len() && #[trigger] mi[jj].contains(y);
                                        if jj < pps.len() {
                                            let p = choose|p: Seq<char>|
                                                parents.contains(p) && pps[jj] == out[p]
                                                    && out[p].len() > 0;
                                            let q = choose|q: int|
                                                0 <= q < parents.len() && parents[q] == p;
                                            assert(out.contains_key(p));
                                            assert(p != k);
                                            assert(o2[decl[k][q]].contains(y));
                                        } else {
                                            assert(mi[jj] == parents);
                                            assert(decl[k].contains(y));
                                        }
                                    }
                                }
                            } else {
                                assert(out.contains_key(x));
                                assert(path_bounded(decl, out, x));
                                assert(o2[x] == out[x]);
                                assert forall|j: int|
                                    0 <= j < o2[x].len() implies o2[x][j] == x || decl[x].contains(
                                    #[trigger] o2[x][j],
                                ) || exists|q: int|
                                    0 <= q < decl[x].len() && o2[decl[x][q]].contains(o2[x][j]) by {
                                    if out[x][j] != x && !decl[x].contains(out[x][j]) {
                                        let q = choose|q: int|
                                            0 <= q < decl[x].len() && out[decl[x][q]].contains(
                                                out[x][j],
                                            );
                                        assert(out.contains_key(decl[x][q]));
                                        assert(decl[x][q] != k);
                                        assert(o2[decl[x][q]] == out[decl[x][q]]);
                                        assert(o2[decl[x][q]].contains(o2[x][j]));
                                    }
                                }
                            }
                        }
                        assert(monotone_in(decl, o2)) by {
                            assert forall|x: Seq<char>| #[trigger]
                                o2.contains_key(x) implies decl.contains_key(x) && monotone_at(
                                decl,
                                o2,
                                x,
                            ) by {
                                if x == k {
                                    assert(decl[k] == parents && o2[k] == path);
                                } else {
                                    assert(out.contains_key(x));
                                    assert(monotone_at(decl, out, x));
                                    assert(o2[x] == out[x]);
                                    assert forall|j: int|
                                        0 <= j < decl[x].len() implies o2.contains_key(
                                        #[trigger] decl[x][j],
                                    ) && is_subsequence(o2[decl[x][j]], o2[x]) by {
                                        assert(out.contains_key(decl[x][j]));
                                        assert(decl[x][j] != k);
                                        assert(o2[decl[x][j]] == out[decl[x][j]]);
                                    }
                                }
                            }
                        }
                        lemma_round_monotone(keys.drop_first(), snapshot, p2, o2, true, decl);
                    },
                    None => {},
                }
            } else {
                lemma_round_monotone(keys.drop_first(), snapshot, pending, out, found, decl);
            }
        }
    }
}

/// The whole engine keeps the invariant from pass to pass.
proof fn lemma_linearize_monotone(
    pending: Map<Seq<char>, Seq<Seq<char>>>,
    out: Map<Seq<char>, Seq<Seq<char>>>,
    decl: Map<Seq<char>, Seq<Seq<char>>>,
)
    requires
        pending.dom().finite(),
        engine_inv(decl, pending, out),
        forall|k: Seq<char>| #[trigger] decl.contains_key(k) ==> decl[k].no_duplicates(),
    ensures
        match spec_linearize(pending, out) {
            LinOutcome::Done(m) => monotone_in(decl, m) && out_wf(m) && forall|k: Seq<char>|
                #[trigger] m.contains_key(k) ==> path_bounded(decl, m, k),
            LinOutcome::Stalled(_, o) => monotone_in(decl, o) && out_wf(o) && forall|k: Seq<char>|
                #[trigger] o.contains_key(k) ==> path_bounded(decl, o, k),
            LinOutcome::Inconsistent => true,
        },
    decreases pending.dom().len(),
{
    let keys = sorted_keys(pending.dom());
    lemma_round_monotone(keys, out.dom(), pending, out, false, decl);
    match spec_round(keys, out.dom(), pending, out, false) {
        RoundOutcome::MergeFail => {},
        RoundOutcome::Continue { pending: p2, out: o2, found } => {
            if found {
                crate::c3_linearization::lemma_spec_round_props(keys, out.dom(), pending, out,
                    false);
                let k = choose|k: Seq<char>|
                    pending.contains_key(k) && !(#[trigger] p2.contains_key(k));
                assert(p2.dom().subset_of(pending.dom()));
                p2.dom().lemma_subset_not_in_lt(pending.dom(), k);
                vstd::set_lib::lemma_len_subset(p2.dom(), pending.dom());
                lemma_linearize_monotone(p2, o2, decl);
            }
        },
    }
}

/// Law (monotonicity): linearize a declared graph whose parent
/// lists are free of duplicates, and every class's path preserves the
/// relative order of its declared parent list and of each parent's complete
/// path. Chains of parent edges compose through
/// `lemma_subsequence_transitive`, so an ancestor path's order is kept in
/// every class that reaches the ancestor through parent edges.
pub proof fn lemma_linearization_monotone(decl: Map<Seq<char>, Seq<Seq<char>>>)
    requires
        decl.dom().finite(),
        forall|k: Seq<char>| #[trigger] decl.contains_key(k) ==> decl[k].no_duplicates(),
    ensures
        match spec_linearize(decl, Map::empty()) {
            LinOutcome::Done(m) => monotone_in(decl, m) && out_wf(m) && forall|k: Seq<char>|
                #[trigger] m.contains_key(k) ==> path_bounded(decl, m, k),
            LinOutcome::Stalled(_, o) => monotone_in(decl, o) && out_wf(o) && forall|k: Seq<char>|
                #[trigger] o.contains_key(k) ==> path_bounded(decl, o, k),
            LinOutcome::Inconsistent => true,
        },
{
    let empty = Map::<Seq<char>, Seq<Seq<char>>>::empty();
    assert(engine_inv(decl, decl, empty));
    lemma_linearize_monotone(decl, empty, decl);
}


/// A subsequence's elements all occur in the larger sequence.
pub proof fn lemma_subsequence_contains(a: Seq<Seq<char>>, b: Seq<Seq<char>>, x: Seq<char>)
    requires
        is_subsequence(a, b),
        a.contains(x),
    ensures
        b.contains(x),
    decreases a.len() + b.len(),
{
    if a[0] == b[0] {
        if x == a[0] {
            assert(b[0] == x);
        } else {
            assert(a.drop_first().contains(x)) by {
                let i = choose|i: int| 0 <= i < a.len() && a[i] == x;
                assert(a.drop_first()[i - 1] == x);
            }
            lemma_subsequence_contains(a.drop_first(), b.drop_first(), x);
            let i = choose|i: int| 0 <= i < b.drop_first().len() && b.drop_first()[i] == x;
            assert(b[i + 1] == x);
        }
    } else {
        lemma_subsequence_contains(a, b.drop_first(), x);
        let i = choose|i: int| 0 <= i < b.drop_first().len() && b.drop_first()[i] == x;
        assert(b[i + 1] == x);
    }
}

/// Law (path contents): linearize a declared graph whose
/// parent lists are free of duplicates, and every resulting path begins with
/// its own class, holds no name twice, and contains every declared parent of
/// its class — and with it, through `monotone_in` and
/// `lemma_subsequence_contains`, every transitive ancestor.
pub proof fn lemma_linearization_paths(decl: Map<Seq<char>, Seq<Seq<char>>>)
    requires
        decl.dom().finite(),
        forall|k: Seq<char>| #[trigger] decl.contains_key(k) ==> decl[k].no_duplicates(),
    ensures
        match spec_linearize(decl, Map::empty()) {
            LinOutcome::Done(m) => forall|k: Seq<char>| #[trigger]
                m.contains_key(k) ==> {
                    &&& m[k].len() > 0
                    &&& m[k][0] == k
                    &&& m[k].no_duplicates()
                    &&& forall|j: int|
                        0 <= j < decl[k].len() ==> m[k].contains(#[trigger] decl[k][j])
                },
            LinOutcome::Stalled(_, _) => true,
            LinOutcome::Inconsistent => true,
        },
{
    let empty = Map::<Seq<char>, Seq<Seq<char>>>::empty();
    lemma_linearize_paths_begin_with_self(decl, empty);
    lemma_linearization_monotone(decl);
    match spec_linearize(decl, empty) {
        LinOutcome::Done(m) => {
            assert forall|k: Seq<char>| #[trigger] m.contains_key(k) implies {
                &&& m[k].len() > 0
                &&& m[k][0] == k
                &&& m[k].no_duplicates()
                &&& forall|j: int| 0 <= j < decl[k].len() ==> m[k].contains(#[trigger] decl[k][j])
            } by {
                assert(monotone_at(decl, m, k));
                assert forall|j: int| 0 <= j < decl[k].len() implies m[k].contains(
                    #[trigger] decl[k][j],
                ) by {
                    assert(decl[k].contains(decl[k][j]));
                    lemma_subsequence_contains(decl[k], m[k], decl[k][j]);
                }
            }
        },
        LinOutcome::Stalled(_, _) => {},
        LinOutcome::Inconsistent => {},
    }
}

} // verus!
