//! Minimal edit scripts between two ordered sequences of strings.
//!
//! The script computation is delegated to the `similar` crate; what a script
//! *means* is pinned down here: a valid script walks both sequences from front
//! to back, tiling each of them completely, and its equal runs really are
//! equal. Applying a valid script to the old sequence reproduces the new one,
//! which `apply_edit_script` proves.

use vstd::prelude::*;

use crate::order::str_views;

verus! {

/// One run of an edit script. A scalar comparison is a script over two
/// one-element sequences.
#[derive(Clone, Copy, Debug, PartialEq, Eq, Structural)]
pub enum EditOp {
    /// A segment equal in both sequences.
    Equal { old_index: usize, new_index: usize, len: usize },
    /// A segment of the old sequence with no counterpart in the new one.
    Delete { old_index: usize, old_len: usize, new_index: usize },
    /// A segment of the new sequence with no counterpart in the old one.
    Insert { old_index: usize, new_index: usize, new_len: usize },
    /// An old segment replaced by a new segment.
    Replace { old_index: usize, old_len: usize, new_index: usize, new_len: usize },
}

/// The remaining ops continue a walk of `old` from `oi` and of `new` from
/// `ni`, and finish both walks exactly at the ends.
pub open spec fn valid_script_from(
    ops: Seq<EditOp>,
    old: Seq<Seq<char>>,
    new: Seq<Seq<char>>,
    oi: int,
    ni: int,
) -> bool
    decreases ops.len(),
{
    if ops.len() == 0 {
        oi == old.len() && ni == new.len()
    } else {
        let rest = ops.drop_first();
        match ops[0] {
            EditOp::Equal { old_index, new_index, len } => {
                &&& old_index as int == oi
                &&& new_index as int == ni
                &&& oi + len <= old.len()
                &&& ni + len <= new.len()
                &&& old.subrange(oi, oi + len) == new.subrange(ni, ni + len)
                &&& valid_script_from(rest, old, new, oi + len, ni + len)
            },
            EditOp::Delete { old_index, old_len, new_index } => {
                &&& old_index as int == oi
                &&& new_index as int == ni
                &&& oi + old_len <= old.len()
                &&& valid_script_from(rest, old, new, oi + old_len, ni)
            },
            EditOp::Insert { old_index, new_index, new_len } => {
                &&& old_index as int == oi
                &&& new_index as int == ni
                &&& ni + new_len <= new.len()
                &&& valid_script_from(rest, old, new, oi, ni + new_len)
            },
            EditOp::Replace { old_index, old_len, new_index, new_len } => {
                &&& old_index as int == oi
                &&& new_index as int == ni
                &&& oi + old_len <= old.len()
                &&& ni + new_len <= new.len()
                &&& valid_script_from(rest, old, new, oi + old_len, ni + new_len)
            },
        }
    }
}

/// The ops form an edit script from `old` to `new`.
pub open spec fn valid_script(ops: Seq<EditOp>, old: Seq<Seq<char>>, new: Seq<Seq<char>>) -> bool {
    valid_script_from(ops, old, new, 0, 0)
}

/// The edit script the `similar` crate computes for a pair of sequences.
/// With no deadline the computation is a pure function of the two sequences
/// — its hashing is unseeded and bucket order never reaches the result — so
/// the result carries a name, and repeated comparisons of the same pair
/// yield the same script.
pub uninterp spec fn edit_script_of(old: Seq<Seq<char>>, new: Seq<Seq<char>>) -> Seq<EditOp>;

/// Relies on `similar::capture_diff_slices`: per the `DiffHook` protocol it
/// is built on, the captured ops describe an edit script from the old to the
/// new sequence — emitted in order, covering both sequences completely,
/// equal segments holding equal elements; equal inputs take the
/// common-prefix fast path and yield equal runs only; with no deadline the
/// result depends on the two sequences alone.
#[verifier::external_body]
fn compute_edit_script(old: &Vec<String>, new: &Vec<String>) -> (ops: Vec<EditOp>)
    ensures
        ops@ == edit_script_of(str_views(old@), str_views(new@)),
        valid_script(ops@, str_views(old@), str_views(new@)),
        str_views(old@) == str_views(new@) ==> forall|k: int|
            0 <= k < ops@.len() ==> ops@[k] is Equal,
{
    similar::capture_diff_slices(similar::Algorithm::Patience, old.as_slice(), new.as_slice())
        .into_iter()
        .map(|op| match op {
            similar::DiffOp::Equal { old_index, new_index, len } =>
                EditOp::Equal { old_index, new_index, len },
            similar::DiffOp::Delete { old_index, old_len, new_index } =>
                EditOp::Delete { old_index, old_len, new_index },
            similar::DiffOp::Insert { old_index, new_index, new_len } =>
                EditOp::Insert { old_index, new_index, new_len },
            similar::DiffOp::Replace { old_index, old_len, new_index, new_len } =>
                EditOp::Replace { old_index, old_len, new_index, new_len },
        })
        .collect()
}

/// Computes the minimal edit script between two string sequences, biased
/// toward matching the longest unambiguous common substructure. The script
/// is a function of the two sequences; equal sequences yield equal runs
/// only, never an insertion, deletion or replacement.
pub fn diff_slices(old: &Vec<String>, new: &Vec<String>) -> (ops: Vec<EditOp>)
    ensures
        ops@ == edit_script_of(str_views(old@), str_views(new@)),
        valid_script(ops@, str_views(old@), str_views(new@)),
        str_views(old@) == str_views(new@) ==> forall|k: int|
            0 <= k < ops@.len() ==> ops@[k] is Equal,
{
    compute_edit_script(old, new)
}

/// Law: an edit script round-trips. Keeping the equal runs of `old`, dropping
/// its deleted and replaced runs, and copying inserted and replacing runs from
/// `new` reproduces `new` exactly, for arbitrary sequences, empty ones and
/// ones with repeated elements included.
pub fn apply_edit_script(old: &Vec<String>, new: &Vec<String>, ops: &Vec<EditOp>) -> (r: Vec<
    String,
>)
    requires
        valid_script(ops@, str_views(old@), str_views(new@)),
    ensures
        str_views(r@) == str_views(new@),
{
    let ghost old_v = str_views(old@);
    let ghost new_v = str_views(new@);
    let mut r: Vec<String> = Vec::new();
    let mut oi: usize = 0;
    let mut ni: usize = 0;
    proof {
        assert(old@.len() == old.len());
        assert(new@.len() == new.len());
        assert(new_v.take(0) =~= Seq::empty());
        assert(ops@.skip(0) =~= ops@);
    }
    for k in 0..ops.len()
        invariant
            old_v == str_views(old@),
            new_v == str_views(new@),
            old_v.len() == old@.len(),
            new_v.len() == new@.len(),
            old@.len() <= usize::MAX,
            new@.len() <= usize::MAX,
            oi <= old@.len(),
            ni <= new@.len(),
            valid_script_from(ops@.skip(k as int), old_v, new_v, oi as int, ni as int),
            str_views(r@) =~= new_v.take(ni as int),
    {
        let ghost oi0 = oi;
        let ghost ni0 = ni;
        proof {
            assert(ops@.skip(k as int)[0] == ops@[k as int]);
            assert(ops@.skip(k as int).drop_first() =~= ops@.skip(k + 1));
        }
        match ops[k] {
            EditOp::Equal { old_index: _, new_index: _, len } => {
                proof {
                    assert(oi + len <= old_v.len());
                    assert(ni + len <= new_v.len());
                    assert forall|j: int| oi <= j < oi + len implies old_v[j] == new_v[j + ni
                        - oi] by {
                        assert(old_v.subrange(oi as int, oi + len)[j - oi] == new_v.subrange(
                            ni as int,
                            ni + len,
                        )[j - oi]);
                    }
                }
                let end = oi + len;
                while oi < end
                    invariant
                        end == oi0 + len,
                        oi0 <= oi,
                        ni - ni0 == oi - oi0,
                        end <= old@.len(),
                        ni + end - oi <= new@.len(),
                        oi <= end,
                        old_v == str_views(old@),
                        new_v == str_views(new@),
                        old_v.len() == old@.len(),
                        new_v.len() == new@.len(),
                        new@.len() <= usize::MAX,
                        forall|j: int|
                            oi <= j < end ==> old_v[j] == new_v[j + ni - oi],
                        str_views(r@) =~= new_v.take(ni as int),
                    decreases end - oi,
                {
                    r.push(old[oi].clone());
                    proof {
                        assert(old_v[oi as int] == new_v[ni as int]);
                        assert(new_v.take(ni + 1) =~= new_v.take(ni as int).push(new_v[ni as int]));
                        assert(str_views(r@) =~= new_v.take(ni + 1));
                    }
                    oi = oi + 1;
                    ni = ni + 1;
                }
                proof {
                    assert(oi == oi0 + len && ni == ni0 + len);
                }
            },
            EditOp::Delete { old_index: _, old_len, new_index: _ } => {
                proof {
                    assert(oi + old_len <= old_v.len());
                }
                oi = oi + old_len;
            },
            EditOp::Insert { old_index: _, new_index: _, new_len } => {
                proof {
                    assert(ni + new_len <= new_v.len());
                }
                let end = ni + new_len;
                copy_new_segment(&mut r, new, &mut ni, end);
            },
            EditOp::Replace { old_index: _, old_len, new_index: _, new_len } => {
                proof {
                    assert(oi + old_len <= old_v.len());
                    assert(ni + new_len <= new_v.len());
                }
                oi = oi + old_len;
                let end = ni + new_len;
                copy_new_segment(&mut r, new, &mut ni, end);
            },
        }
    }
    proof {
        assert(ops@.skip(ops@.len() as int).len() == 0);
        assert(new_v.take(new_v.len() as int) =~= new_v);
    }
    r
}

/// Appends `new[*ni..end]` to `r`, advancing `*ni` to `end`.
fn copy_new_segment(r: &mut Vec<String>, new: &Vec<String>, ni: &mut usize, end: usize)
    requires
        *old(ni) <= end <= new@.len(),
        str_views(old(r)@) == str_views(new@).take(*old(ni) as int),
    ensures
        *final(ni) == end,
        str_views(final(r)@) == str_views(new@).take(end as int),
{
    let ghost new_v = str_views(new@);
    proof {
        assert(new@.len() == new.len());
    }
    while *ni < end
        invariant
            *ni <= end <= new@.len(),
            new_v == str_views(new@),
            new_v.len() == new@.len(),
            str_views(r@) =~= new_v.take(*ni as int),
        decreases end - *ni,
    {
        r.push(new[*ni].clone());
        proof {
            assert(new_v.take(*ni + 1) =~= new_v.take(*ni as int).push(new_v[*ni as int]));
            assert(str_views(r@) =~= new_v.take(*ni + 1));
        }
        *ni = *ni + 1;
    }
}

/// Wraps one string into a one-element sequence, for scalar comparisons.
pub fn singleton_vec(s: &String) -> (v: Vec<String>)
    ensures
        v@.len() == 1,
        v@[0] == *s,
{
    let mut v: Vec<String> = Vec::new();
    v.push(s.clone());
    v
}

} // verus!
