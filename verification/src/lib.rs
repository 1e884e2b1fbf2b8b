//! C3 linearization for multiple-inheritance class graphs.
//!
//! The crate turns a declared multi-parent class graph into, for every class,
//! a single total order over its ancestors (its *linearized path*), keeps a
//! registry of the functions and variables each class contributes, derives
//! per-class dispatch chains from the linearized paths, and provides the
//! runtime path stack that walks a dispatch chain one step at a time.
#![allow(unused_imports)]
use vstd::prelude::*;

pub mod c3;
pub mod c3_linearization;
pub mod id;
pub mod laws;
pub mod path_stack;
pub mod sets;

pub use crate::c3::{C3, C3View};
pub use crate::c3_linearization::{c3_linearization, merge};
pub use crate::path_stack::PathStack;
pub use crate::id::Id;
pub use crate::sets::Sets;

verus! {

/// A class identifier.
pub type Class = Id;

/// A variable identifier.
pub type Var = Id;

/// The failures the linearization core can report.
#[derive(Debug)]
pub enum C3Error {
    /// A class was queried or used as a parent although it was never declared
    /// (or was already consumed). The payload is the class name.
    BaseClassDoesNotExists(String),
    /// An operation read the tail of an empty candidate set.
    EmptySet,
    /// An empty candidate set was handed to a merge.
    PushingEmptySet,
    /// The merge could not pick any acceptable candidate although candidate
    /// sets remain: the declared hierarchy is inconsistent.
    NoMoreCandidates,
    /// A whole pass over the pending classes resolved none of them: the
    /// remaining classes (the payload, in sorted order) form a cycle or
    /// depend on classes that were never declared.
    NoProgress(Vec<String>),
}

/// True iff some element of `list` is the identifier `x`.
pub(crate) fn contains_id(list: &[Id], x: &Id) -> (r: bool)
    ensures
        r == list.deep_view().contains(x@),
{
    let n = list.len();
    let mut i: usize = 0;
    while i < n
        invariant
            n == list@.len(),
            i <= n,
            forall|j: int| 0 <= j < i ==> list.deep_view()[j] != x@,
        decreases n - i,
    {
        if *vstd::slice::slice_index_get(list, i) == *x {
            proof {
                assert(list.deep_view()[i as int] == x@);
            }
            return true;
        }
        i += 1;
    }
    false
}

/// Check whether `element` occurs in the tail (everything after the head) of
/// `list`; an empty list has no head to speak of.
pub(crate) fn in_tail(element: &Id, list: &[Id]) -> (r: Result<bool, C3Error>)
    ensures
        match r {
            Ok(b) => list@.len() > 0 && b == list.deep_view().drop_first().contains(element@),
            Err(e) => list@.len() == 0 && e matches C3Error::EmptySet,
        },
{
    if list.len() == 0 {
        Err(C3Error::EmptySet)
    } else {
        let tail = vstd::slice::slice_subrange(list, 1, list.len());
        let r = contains_id(tail, element);
        proof {
            assert(tail.deep_view() =~= list.deep_view().drop_first());
        }
        Ok(r)
    }
}

/// Check if `smaller` is a subset of `larger`: every element of `smaller`
/// occurs somewhere in `larger`.
pub fn is_subset(larger: &[Id], smaller: &[Id]) -> (r: bool)
    ensures
        r == (forall|j: int|
            0 <= j < smaller@.len() ==> larger.deep_view().contains(
                #[trigger] smaller.deep_view()[j],
            )),
{
    let n = smaller.len();
    let mut i: usize = 0;
    while i < n
        invariant
            n == smaller@.len(),
            i <= n,
            forall|j: int|
                0 <= j < i ==> larger.deep_view().contains(#[trigger] smaller.deep_view()[j]),
        decreases n - i,
    {
        if !contains_id(larger, vstd::slice::slice_index_get(smaller, i)) {
            proof {
                assert(smaller.deep_view()[i as int] == smaller@[i as int]@);
            }
            return false;
        }
        i += 1;
    }
    true
}


/// A parent-list separator (a comma and a space) stands at position `i`.
pub open spec fn sep_at(s: Seq<char>, i: int) -> bool {
    0 <= i && i + 2 <= s.len() && s[i] == ',' && s[i + 1] == ' '
}

/// `i` is the first separator position.
pub open spec fn is_first_sep(s: Seq<char>, i: int) -> bool {
    sep_at(s, i) && forall|j: int| 0 <= j < i ==> !sep_at(s, j)
}

/// The pieces of `s` between its separators, in order, separators dropped.
pub open spec fn spec_split(s: Seq<char>) -> Seq<Seq<char>>
    decreases s.len(),
{
    if exists|i: int| is_first_sep(s, i) {
        let i = choose|i: int| is_first_sep(s, i);
        seq![s.take(i)] + spec_split(s.skip(i + 2))
    } else {
        seq![s]
    }
}

/// The nonempty pieces, in order.
pub open spec fn drop_empties(parts: Seq<Seq<char>>) -> Seq<Seq<char>>
    decreases parts.len(),
{
    if parts.len() == 0 {
        Seq::empty()
    } else {
        let rest = drop_empties(parts.drop_last());
        if parts.last().len() > 0 {
            rest.push(parts.last())
        } else {
            rest
        }
    }
}

/// The first separator at or after character `start`, if any.
#[verifier::loop_isolation(false)]
fn find_sep(s: &str, start: usize) -> (r: Option<usize>)
    requires
        start <= s@.len(),
    ensures
        match r {
            Some(i) => {
                &&& start <= i
                &&& sep_at(s@, i as int)
                &&& forall|j: int| start <= j < i ==> !sep_at(s@, j)
            },
            None => forall|j: int| start <= j < s@.len() ==> !sep_at(s@, j),
        },
{
    let n = s.unicode_len();
    let mut i: usize = start;
    while i < n
        invariant
            start <= i,
            i <= n,
            forall|j: int| start <= j < i ==> !sep_at(s@, j),
        decreases n - i,
    {
        if i + 1 < n {
            if s.get_char(i) == ',' && s.get_char(i + 1) == ' ' {
                return Some(i);
            }
            i += 1;
        } else {
            return None;
        }
    }
    None
}

/// Split `s` at every separator, from character `start` on.
#[verifier::loop_isolation(false)]
fn split_from(s: &str, start: usize) -> (r: Vec<String>)
    requires
        start <= s@.len(),
    ensures
        r.deep_view() == spec_split(s@.skip(start as int)),
    decreases s@.len() - start@,
{
    let ghost suf = s@.skip(start as int);
    let n = s.unicode_len();
    match find_sep(s, start) {
        Some(i) => {
            proof {
                assert(sep_at(suf, i - start));
                assert forall|j: int| 0 <= j < i - start implies !sep_at(suf, j) by {
                    assert(!sep_at(s@, start + j));
                }
                assert(is_first_sep(suf, i - start));
                let ispec = choose|j: int| is_first_sep(suf, j);
                assert(ispec == i - start);
                assert(spec_split(suf) == seq![suf.take(i - start)] + spec_split(
                    suf.skip(i - start + 2),
                ));
            }
            let seg = vstd::string::StrSliceExecFns::substring_char(s, start, i).to_owned();
            let mut rest = split_from(s, i + 2);
            let mut r: Vec<String> = Vec::new();
            r.push(seg);
            r.append(&mut rest);
            proof {
                assert(suf.take(i - start) =~= s@.subrange(start as int, i as int));
                assert(suf.skip(i - start + 2) =~= s@.skip(i + 2));
                assert(r.deep_view() =~= spec_split(suf));
            }
            r
        },
        None => {
            let seg = vstd::string::StrSliceExecFns::substring_char(s, start, n).to_owned();
            let mut r: Vec<String> = Vec::new();
            r.push(seg);
            proof {
                assert forall|j: int| !is_first_sep(suf, j) by {
                    if sep_at(suf, j) {
                        assert(sep_at(s@, start + j));
                    }
                }
                assert(suf =~= s@.subrange(start as int, s@.len() as int));
                assert(r.deep_view() =~= seq![suf]);
            }
            r
        },
    }
}

/// The nonempty pieces of a comma-and-space separated list, in order: how a
/// parent list written as one string is read.
pub fn split_coma(s: &str) -> (r: Vec<String>)
    ensures
        r.deep_view() == drop_empties(spec_split(s@)),
{
    let parts = split_from(s, 0);
    proof {
        assert(s@.skip(0) =~= s@);
    }
    drop_empty_strings(parts)
}

/// Keep only the nonempty strings, in order.
#[verifier::loop_isolation(false)]
fn drop_empty_strings(v: Vec<String>) -> (r: Vec<String>)
    ensures
        r.deep_view() == drop_empties(v.deep_view()),
{
    let n = v.len();
    let mut r: Vec<String> = Vec::new();
    let mut i: usize = 0;
    while i < n
        invariant
            i <= n,
            r.deep_view() == drop_empties(v.deep_view().subrange(0, i as int)),
        decreases n - i,
    {
        proof {
            let d = v.deep_view();
            assert(d.subrange(0, i + 1).drop_last() =~= d.subrange(0, i as int));
            assert(d.subrange(0, i + 1).last() == d[i as int]);
        }
        if !v[i].as_str().is_empty() {
            let ghost dprev = r.deep_view();
            let e = v[i].clone();
            r.push(e);
            proof {
                assert(r.deep_view() =~= dprev.push(v.deep_view()[i as int]));
                assert(r.deep_view() =~= drop_empties(v.deep_view().subrange(0, i + 1)));
            }
        } else {
            proof {
                assert(r.deep_view() =~= drop_empties(v.deep_view().subrange(0, i + 1)));
            }
        }
        i += 1;
    }
    proof {
        assert(v.deep_view().subrange(0, n as int) =~= v.deep_view());
    }
    r
}


} // verus!
