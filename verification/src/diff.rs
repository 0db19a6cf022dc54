//! The graph diff engine: recursive comparison of two derivation graphs.
//!
//! Each pair of derivations opens a buffered event scope. Field comparisons
//! and recursive input comparisons emit into that scope; a scope that gathered
//! nothing beyond its opening header is discarded whole, so a subtree that
//! produced no visible information does not appear in the output at all. A
//! scope that holds anything — a fresh change, an already-compared notice, or
//! a flushed child scope — is flushed to the caller in original order, so a
//! notice stays visible even where nothing around it was novel.
//!
//! Unequal values are checked against the comparison memo first: a pair seen
//! before yields a one-line notice instead of a second full rendering, and
//! does not count as novel.

use vstd::prelude::*;

use crate::derivation::Derivation;
use crate::derivation::Derivations;
use crate::derivation::Dict;
use crate::derivation::Input;
use crate::derivation::Output;
use crate::derivation::all_inputs_resolvable;
use crate::derivation::closed_resolver;
use crate::derivation::direct_fields_match;
use crate::derivation::env_view;
use crate::derivation::input_drvs_view;
use crate::derivation::matching_fields;
use crate::derivation::outputs_view;
use crate::derivation::resolver_at;
use crate::order::lemma_sorted_distinct;
use crate::order::str_eq;
use crate::order::str_vec_eq;
use crate::order::str_views;
use crate::render::DiffEvent;
use crate::render::event_wf;
use crate::render::events_lines;
use crate::render::join_lines;
use crate::render::joined;
use crate::render::render_events;
use crate::seqdiff::diff_slices;
use crate::seqdiff::edit_script_of;
use crate::seqdiff::singleton_vec;
use crate::strings_set::FxStringDiffSet;
use crate::strings_set::FxStringsDiffSet;
use crate::strings_set::SetAdd;
use crate::strings_set::scalar_pair_digest;
use crate::strings_set::sequence_pair_digest;

verus! {

/// Was anything "new" seen when running a diff?
#[derive(Clone, Copy, Debug, PartialEq, Eq, Structural)]
pub enum DiffNovelty {
    /// Either nothing changed or nothing new changed.
    Boring,
    /// Something new changed.
    Novel,
}

impl DiffNovelty {
    /// The join of the two-element semilattice: `Novel` absorbs everything,
    /// two `Boring` sides stay `Boring`.
    pub fn join(self, rhs: Self) -> (r: Self)
        ensures
            r == if self == DiffNovelty::Novel || rhs == DiffNovelty::Novel {
                DiffNovelty::Novel
            } else {
                DiffNovelty::Boring
            },
    {
        if let DiffNovelty::Novel = rhs {
            DiffNovelty::Novel
        } else {
            self
        }
    }
}

/// Why a diff run failed. Malformed wire records never reach the engine —
/// it consumes already-typed derivation values — and the report is built
/// directly as text, so an unresolvable reference is the one failure left.
#[derive(Debug)]
pub enum DiffError {
    /// `input_drvs` references a path the resolver cannot produce. Skipping
    /// the subtree silently would make the report claim "no change" where
    /// nothing was compared at all, so this surfaces as an error.
    UnresolvableReference { path: String },
}

/// The mutable state of one diff run: the two comparison memo tables. Each
/// run constructs fresh tables and discards them afterwards; nothing is
/// shared across runs.
pub struct DiffState {
    /// Digests of scalar string pairs already compared.
    pub scalar_comparisons: FxStringDiffSet,
    /// Digests of string sequence pairs already compared.
    pub sequence_comparisons: FxStringsDiffSet,
}

/// The one-line notice a repeated difference emits.
pub open spec fn notice_event(e: DiffEvent, label: Seq<char>) -> bool {
    e matches DiffEvent::AlreadyCompared { label: l } && l@ == label
}

/// The change block a fresh scalar difference emits: the two values and
/// their edit script, under the given label.
pub open spec fn scalar_change_event(e: DiffEvent, label: Seq<char>, a: Seq<char>, b: Seq<char>) -> bool {
    e matches DiffEvent::ValueChanged { label: l, old_items, new_items, ops }
        && l@ == label
        && str_views(old_items@) == seq![a]
        && str_views(new_items@) == seq![b]
        && ops@ == edit_script_of(seq![a], seq![b])
}

/// The change block a fresh sequence difference emits.
pub open spec fn sequence_change_event(
    e: DiffEvent,
    label: Seq<char>,
    a: Seq<Seq<char>>,
    b: Seq<Seq<char>>,
) -> bool {
    e matches DiffEvent::ValueChanged { label: l, old_items, new_items, ops }
        && l@ == label
        && str_views(old_items@) == a
        && str_views(new_items@) == b
        && ops@ == edit_script_of(a, b)
}

/// What a scalar comparison of two unequal values emits, given the scalar
/// memo contents it runs against: a notice for a recorded pair, a full
/// change block for a fresh one.
pub open spec fn scalar_compare_event(
    e: DiffEvent,
    label: Seq<char>,
    a: Seq<char>,
    b: Seq<char>,
    mem: Set<u64>,
) -> bool {
    if mem.contains(scalar_pair_digest(a, b)) {
        notice_event(e, label)
    } else {
        scalar_change_event(e, label, a, b)
    }
}

/// What a sequence comparison of two unequal values emits, given the
/// sequence memo contents it runs against.
pub open spec fn sequence_compare_event(
    e: DiffEvent,
    label: Seq<char>,
    a: Seq<Seq<char>>,
    b: Seq<Seq<char>>,
    mem: Set<u64>,
) -> bool {
    if mem.contains(sequence_pair_digest(a, b)) {
        notice_event(e, label)
    } else {
        sequence_change_event(e, label, a, b)
    }
}

/// Some event of `events[from..]` is a full change block.
pub open spec fn has_change_from(events: Seq<DiffEvent>, from: int) -> bool {
    exists|k: int| from <= k < events.len() && (#[trigger] events[k]) is ValueChanged
}

/// Pushing one event adds a change exactly when that event is one.
pub proof fn lemma_has_change_push(events: Seq<DiffEvent>, e: DiffEvent, from: int)
    requires
        0 <= from <= events.len(),
    ensures
        has_change_from(events.push(e), from) == (has_change_from(events, from)
            || e is ValueChanged),
{
    if has_change_from(events, from) {
        let k = choose|k: int| from <= k < events.len() && (#[trigger] events[k]) is ValueChanged;
        assert(events.push(e)[k] is ValueChanged);
    }
    if e is ValueChanged {
        assert(events.push(e)[events.len() as int] is ValueChanged);
    }
    if has_change_from(events.push(e), from) && !(e is ValueChanged) {
        let k = choose|k: int|
            from <= k < events.push(e).len() && (#[trigger] events.push(e)[k]) is ValueChanged;
        if k < events.len() {
            assert(events[k] is ValueChanged);
        }
    }
}

/// Growing a scope splits its changes into the old part and the added part.
pub proof fn lemma_has_change_extend(pre: Seq<DiffEvent>, post: Seq<DiffEvent>, from: int)
    requires
        0 <= from <= pre.len(),
        pre.is_prefix_of(post),
    ensures
        has_change_from(post, from) == (has_change_from(pre, from) || has_change_from(
            post,
            pre.len() as int,
        )),
{
    assert forall|k: int| 0 <= k < pre.len() implies post[k] == pre[k] by {
        assert(pre[k] == post.subrange(0, pre.len() as int)[k]);
    }
    if has_change_from(pre, from) {
        let k = choose|k: int| from <= k < pre.len() && (#[trigger] pre[k]) is ValueChanged;
        assert(post[k] is ValueChanged);
    }
    if has_change_from(post, from) && !has_change_from(post, pre.len() as int) {
        let k = choose|k: int| from <= k < post.len() && (#[trigger] post[k]) is ValueChanged;
        assert(k < pre.len());
        assert(pre[k] is ValueChanged);
    }
}

/// The events of `post` extend those of `pre`, and every added event is
/// well-formed.
pub open spec fn events_extended(pre: Seq<DiffEvent>, post: Seq<DiffEvent>) -> bool {
    &&& pre.is_prefix_of(post)
    &&& forall|i: int| pre.len() <= i < post.len() ==> event_wf(#[trigger] post[i])
}

/// A prefix of equal length is the whole sequence.
pub proof fn lemma_prefix_eq(a: Seq<DiffEvent>, b: Seq<DiffEvent>)
    requires
        events_extended(a, b),
        a.len() == b.len(),
    ensures
        a == b,
{
    assert(a =~= b.subrange(0, a.len() as int));
    assert(b.subrange(0, b.len() as int) =~= b);
}

/// Extension of event scopes composes.
pub proof fn lemma_extended_trans(a: Seq<DiffEvent>, b: Seq<DiffEvent>, c: Seq<DiffEvent>)
    requires
        events_extended(a, b),
        events_extended(b, c),
    ensures
        events_extended(a, c),
{
    assert forall|i: int| 0 <= i < a.len() implies a[i] == c[i] by {
        assert(a[i] == b.subrange(0, a.len() as int)[i]);
        assert(b[i] == c.subrange(0, b.len() as int)[i]);
    }
    assert(a =~= c.subrange(0, a.len() as int));
    assert forall|i: int| a.len() <= i < c.len() implies event_wf(#[trigger] c[i]) by {
        if i < b.len() {
            assert(b[i] == c.subrange(0, b.len() as int)[i]);
            assert(event_wf(b[i]));
        }
    }
}

/// Copies a string vector, keeping every element exactly.
fn clone_strings(v: &Vec<String>) -> (r: Vec<String>)
    ensures
        r@ == v@,
{
    let mut r: Vec<String> = Vec::new();
    for i in 0..v.len()
        invariant
            r@ =~= v@.take(i as int),
    {
        r.push(v[i].clone());
        proof {
            assert(v@.take(i + 1) =~= v@.take(i as int).push(v@[i as int]));
        }
    }
    proof {
        assert(v@.take(v@.len() as int) =~= v@);
    }
    r
}

/// Copies the keys of a dictionary, in storage order.
fn dict_keys<V>(d: &Dict<V>) -> (r: Vec<String>)
    ensures
        str_views(r@) == d.keys(),
{
    let mut r: Vec<String> = Vec::new();
    for i in 0..d.entries.len()
        invariant
            str_views(r@) =~= d.keys().take(i as int),
    {
        r.push(d.entries[i].0.clone());
        proof {
            assert(d.keys().take(i + 1) =~= d.keys().take(i as int).push(d.keys()[i as int]));
            assert(str_views(r@) =~= d.keys().take(i + 1));
        }
    }
    proof {
        assert(d.keys().take(d.keys().len() as int) =~= d.keys());
    }
    r
}

/// Compares one pair of scalar strings against the buffered scope.
///
/// Equal values emit nothing. Unequal values already in the memo emit a
/// one-line notice; fresh unequal values emit a full change block and count
/// as novel.
fn diff_scalar(
    state: &mut DiffState,
    scope: &mut Vec<DiffEvent>,
    label: String,
    old_s: &String,
    new_s: &String,
) -> (nov: DiffNovelty)
    ensures
        events_extended(old(scope)@, final(scope)@),
        final(state).sequence_comparisons@ == old(state).sequence_comparisons@,
        old_s@ == new_s@ ==> final(scope)@ == old(scope)@ && *final(state) == *old(state) && nov
            == DiffNovelty::Boring,
        final(scope)@ == old(scope)@ ==> old_s@ == new_s@,
        old_s@ != new_s@ ==> final(state).scalar_comparisons@ == old(
            state,
        ).scalar_comparisons@.insert(scalar_pair_digest(old_s@, new_s@)),
        old_s@ != new_s@ && old(state).scalar_comparisons@.contains(
            scalar_pair_digest(old_s@, new_s@),
        ) ==> final(scope)@ == old(scope)@.push(DiffEvent::AlreadyCompared { label }) && nov
            == DiffNovelty::Boring,
        old_s@ != new_s@ && !old(state).scalar_comparisons@.contains(
            scalar_pair_digest(old_s@, new_s@),
        ) ==> final(scope)@.len() == old(scope)@.len() + 1 && scalar_change_event(
            final(scope)@.last(),
            label@,
            old_s@,
            new_s@,
        ) && nov == DiffNovelty::Novel,
        old_s@ != new_s@ ==> scalar_compare_event(
            final(scope)@.last(),
            label@,
            old_s@,
            new_s@,
            old(state).scalar_comparisons@,
        ),
        nov == DiffNovelty::Novel ==> final(scope)@.len() > old(scope)@.len(),
        (nov == DiffNovelty::Novel) == has_change_from(final(scope)@, old(scope)@.len() as int),
{
    if str_eq(old_s.as_str(), new_s.as_str()) {
        return DiffNovelty::Boring;
    }
    match state.scalar_comparisons.insert(old_s.as_str(), new_s.as_str()) {
        SetAdd::AlreadyPresent => {
            proof {
                lemma_has_change_push(scope@, DiffEvent::AlreadyCompared { label }, scope@.len() as int);
            }
            scope.push(DiffEvent::AlreadyCompared { label });
            DiffNovelty::Boring
        },
        SetAdd::New => {
            let old_items = singleton_vec(old_s);
            let new_items = singleton_vec(new_s);
            let ops = diff_slices(&old_items, &new_items);
            proof {
                assert(str_views(old_items@) =~= seq![old_s@]);
                assert(str_views(new_items@) =~= seq![new_s@]);
            }
            scope.push(DiffEvent::ValueChanged { label, old_items, new_items, ops });
            proof {
                assert(scope@[scope@.len() - 1] is ValueChanged);
            }
            DiffNovelty::Novel
        },
    }
}

/// Compares one pair of string sequences against the buffered scope, with
/// the same policy as `diff_scalar`.
fn diff_sequence(
    state: &mut DiffState,
    scope: &mut Vec<DiffEvent>,
    label: String,
    old_v: &Vec<String>,
    new_v: &Vec<String>,
) -> (nov: DiffNovelty)
    ensures
        events_extended(old(scope)@, final(scope)@),
        final(state).scalar_comparisons@ == old(state).scalar_comparisons@,
        str_views(old_v@) == str_views(new_v@) ==> final(scope)@ == old(scope)@ && *final(state)
            == *old(state) && nov == DiffNovelty::Boring,
        final(scope)@ == old(scope)@ ==> str_views(old_v@) == str_views(new_v@),
        str_views(old_v@) != str_views(new_v@) ==> final(state).sequence_comparisons@ == old(
            state,
        ).sequence_comparisons@.insert(
            sequence_pair_digest(str_views(old_v@), str_views(new_v@)),
        ),
        str_views(old_v@) != str_views(new_v@) && old(state).sequence_comparisons@.contains(
            sequence_pair_digest(str_views(old_v@), str_views(new_v@)),
        ) ==> final(scope)@ == old(scope)@.push(DiffEvent::AlreadyCompared { label }) && nov
            == DiffNovelty::Boring,
        str_views(old_v@) != str_views(new_v@) && !old(state).sequence_comparisons@.contains(
            sequence_pair_digest(str_views(old_v@), str_views(new_v@)),
        ) ==> final(scope)@.len() == old(scope)@.len() + 1 && sequence_change_event(
            final(scope)@.last(),
            label@,
            str_views(old_v@),
            str_views(new_v@),
        ) && nov == DiffNovelty::Novel,
        str_views(old_v@) != str_views(new_v@) ==> sequence_compare_event(
            final(scope)@.last(),
            label@,
            str_views(old_v@),
            str_views(new_v@),
            old(state).sequence_comparisons@,
        ),
        nov == DiffNovelty::Novel ==> final(scope)@.len() > old(scope)@.len(),
        (nov == DiffNovelty::Novel) == has_change_from(final(scope)@, old(scope)@.len() as int),
{
    if str_vec_eq(old_v, new_v) {
        return DiffNovelty::Boring;
    }
    match state.sequence_comparisons.insert(old_v, new_v) {
        SetAdd::AlreadyPresent => {
            proof {
                lemma_has_change_push(scope@, DiffEvent::AlreadyCompared { label }, scope@.len() as int);
            }
            scope.push(DiffEvent::AlreadyCompared { label });
            DiffNovelty::Boring
        },
        SetAdd::New => {
            let old_items = clone_strings(old_v);
            let new_items = clone_strings(new_v);
            let ops = diff_slices(&old_items, &new_items);
            proof {
                assert(str_views(old_items@) == str_views(old_v@));
                assert(str_views(new_items@) == str_views(new_v@));
            }
            scope.push(DiffEvent::ValueChanged { label, old_items, new_items, ops });
            proof {
                assert(scope@[scope@.len() - 1] is ValueChanged);
            }
            DiffNovelty::Novel
        },
    }
}

/// Compares two environments: a key-set diff, then a per-key value diff for
/// the keys present on both sides. Additions and removals of keys surface in
/// the key-set diff.
fn diff_env(
    state: &mut DiffState,
    scope: &mut Vec<DiffEvent>,
    old_env: &Dict<String>,
    new_env: &Dict<String>,
) -> (nov: DiffNovelty)
    requires
        old_env.wf(),
        new_env.wf(),
    ensures
        events_extended(old(scope)@, final(scope)@),
        env_view(old_env) == env_view(new_env) ==> final(scope)@ == old(scope)@ && *final(state)
            == *old(state) && nov == DiffNovelty::Boring,
        final(scope)@ == old(scope)@ ==> env_view(old_env) == env_view(new_env),
        nov == DiffNovelty::Novel ==> final(scope)@.len() > old(scope)@.len(),
        (nov == DiffNovelty::Novel) == has_change_from(final(scope)@, old(scope)@.len() as int),
{
    let ghost eq = env_view(old_env) == env_view(new_env);
    proof {
        if eq {
            assert(env_view(old_env).len() == old_env.entries@.len());
            assert(env_view(new_env).len() == new_env.entries@.len());
            assert(old_env.keys().len() == old_env.entries@.len());
            assert(new_env.keys().len() == new_env.entries@.len());
            assert forall|j: int| 0 <= j < old_env.keys().len() implies old_env.keys()[j]
                == new_env.keys()[j] by {
                assert(env_view(old_env)[j] == (old_env.keys()[j], old_env.entries@[j].1@));
                assert(env_view(new_env)[j] == (new_env.keys()[j], new_env.entries@[j].1@));
            }
            assert(old_env.keys() =~= new_env.keys());
        }
    }
    let old_keys = dict_keys(old_env);
    let new_keys = dict_keys(new_env);
    let mut nov = DiffNovelty::Boring;
    if !str_vec_eq(&old_keys, &new_keys) {
        nov = nov.join(diff_sequence(state, scope, String::from_str("env"), &old_keys, &new_keys));
    }
    for i in 0..old_env.entries.len()
        invariant
            old_env.wf(),
            new_env.wf(),
            eq == (env_view(old_env) == env_view(new_env)),
            events_extended(old(scope)@, scope@),
            eq ==> scope@ == old(scope)@ && *state == *old(state) && nov == DiffNovelty::Boring,
            scope@ == old(scope)@ ==> old_env.keys() == new_env.keys() && (forall|j: int|
                0 <= j < i ==> #[trigger] env_view(old_env)[j].1 == env_view(new_env)[j].1),
            nov == DiffNovelty::Novel ==> scope@.len() > old(scope)@.len(),
            (nov == DiffNovelty::Novel) == has_change_from(scope@, old(scope)@.len() as int),
    {
        let mut label = String::from_str("env.");
        label.append(old_env.entries[i].0.as_str());
        let ghost pre_scope = scope@;
        let ghost key_view = old_env.entries@[i as int].0@;
        proof {
            assert(old_env.keys()[i as int] == key_view);
        }
        match new_env.get(old_env.entries[i].0.as_str()) {
            Some(v2) => {
                let ghost w = choose|w: int|
                    0 <= w < new_env.entries@.len() && #[trigger] new_env.keys()[w] == key_view
                        && *v2 == new_env.entries@[w].1;
                proof {
                    if old_env.keys() == new_env.keys() {
                        if w != i {
                            lemma_sorted_distinct(new_env.keys(), w, i as int);
                        }
                        assert(v2@ == env_view(new_env)[i as int].1);
                    }
                    if eq {
                        assert(env_view(old_env)[i as int].1 == env_view(new_env)[i as int].1);
                        assert(old_env.entries@[i as int].1@ == v2@);
                    }
                }
                nov = nov.join(diff_scalar(state, scope, label, &old_env.entries[i].1, v2));
                proof {
                    lemma_extended_trans(old(scope)@, pre_scope, scope@);
                    lemma_has_change_extend(pre_scope, scope@, old(scope)@.len() as int);
                    if scope@ == old(scope)@ {
                        assert(pre_scope.is_prefix_of(scope@));
                        assert(pre_scope =~= old(scope)@);
                        assert(old_env.entries@[i as int].1@ == v2@);
                        assert(env_view(old_env)[i as int] == (
                            old_env.keys()[i as int],
                            old_env.entries@[i as int].1@,
                        ));
                        assert(env_view(new_env)[i as int] == (
                            new_env.keys()[i as int],
                            new_env.entries@[i as int].1@,
                        ));
                        assert(env_view(old_env)[i as int].1 == env_view(new_env)[i as int].1);
                    }
                }
            },
            None => {
                proof {
                    if scope@ == old(scope)@ {
                        assert(new_env.contains_key(new_env.keys()[i as int]));
                        assert(false);
                    }
                }
            },
        }
    }
    proof {
        if scope@ == old(scope)@ {
            assert forall|j: int| 0 <= j < env_view(old_env).len() implies env_view(old_env)[j]
                == env_view(new_env)[j] by {
                assert(env_view(old_env)[j] == (old_env.keys()[j], old_env.entries@[j].1@));
                assert(env_view(new_env)[j] == (new_env.keys()[j], new_env.entries@[j].1@));
                assert(env_view(old_env)[j].1 == env_view(new_env)[j].1);
            }
            assert(env_view(old_env) =~= env_view(new_env));
        }
    }
    nov
}

/// Compares two output tables by output name, then by produced artifact
/// identifier, with the same shape as the environment comparison.
fn diff_outputs(
    state: &mut DiffState,
    scope: &mut Vec<DiffEvent>,
    old_out: &Dict<Output>,
    new_out: &Dict<Output>,
) -> (nov: DiffNovelty)
    requires
        old_out.wf(),
        new_out.wf(),
    ensures
        events_extended(old(scope)@, final(scope)@),
        outputs_view(old_out) == outputs_view(new_out) ==> final(scope)@ == old(scope)@ && *final(state)
            == *old(state) && nov == DiffNovelty::Boring,
        final(scope)@ == old(scope)@ ==> outputs_view(old_out) == outputs_view(new_out),
        nov == DiffNovelty::Novel ==> final(scope)@.len() > old(scope)@.len(),
        (nov == DiffNovelty::Novel) == has_change_from(final(scope)@, old(scope)@.len() as int),
{
    let ghost eq = outputs_view(old_out) == outputs_view(new_out);
    proof {
        if eq {
            assert(outputs_view(old_out).len() == old_out.entries@.len());
            assert(outputs_view(new_out).len() == new_out.entries@.len());
            assert(old_out.keys().len() == old_out.entries@.len());
            assert(new_out.keys().len() == new_out.entries@.len());
            assert forall|j: int| 0 <= j < old_out.keys().len() implies old_out.keys()[j]
                == new_out.keys()[j] by {
                assert(outputs_view(old_out)[j] == (old_out.keys()[j], old_out.entries@[j].1.path@));
                assert(outputs_view(new_out)[j] == (new_out.keys()[j], new_out.entries@[j].1.path@));
            }
            assert(old_out.keys() =~= new_out.keys());
        }
    }
    let old_keys = dict_keys(old_out);
    let new_keys = dict_keys(new_out);
    let mut nov = DiffNovelty::Boring;
    if !str_vec_eq(&old_keys, &new_keys) {
        nov = nov.join(diff_sequence(state, scope, String::from_str("outputs"), &old_keys, &new_keys));
    }
    for i in 0..old_out.entries.len()
        invariant
            old_out.wf(),
            new_out.wf(),
            eq == (outputs_view(old_out) == outputs_view(new_out)),
            events_extended(old(scope)@, scope@),
            eq ==> scope@ == old(scope)@ && *state == *old(state) && nov == DiffNovelty::Boring,
            scope@ == old(scope)@ ==> old_out.keys() == new_out.keys() && (forall|j: int|
                0 <= j < i ==> #[trigger] outputs_view(old_out)[j].1 == outputs_view(new_out)[j].1),
            nov == DiffNovelty::Novel ==> scope@.len() > old(scope)@.len(),
            (nov == DiffNovelty::Novel) == has_change_from(scope@, old(scope)@.len() as int),
    {
        let mut label = String::from_str("outputs.");
        label.append(old_out.entries[i].0.as_str());
        let ghost pre_scope = scope@;
        let ghost key_view = old_out.entries@[i as int].0@;
        proof {
            assert(old_out.keys()[i as int] == key_view);
        }
        match new_out.get(old_out.entries[i].0.as_str()) {
            Some(v2) => {
                let ghost w = choose|w: int|
                    0 <= w < new_out.entries@.len() && #[trigger] new_out.keys()[w] == key_view
                        && *v2 == new_out.entries@[w].1;
                proof {
                    if old_out.keys() == new_out.keys() {
                        if w != i {
                            lemma_sorted_distinct(new_out.keys(), w, i as int);
                        }
                        assert(v2.path@ == outputs_view(new_out)[i as int].1);
                    }
                    if eq {
                        assert(outputs_view(old_out)[i as int].1 == outputs_view(new_out)[i as int].1);
                        assert(old_out.entries@[i as int].1.path@ == v2.path@);
                    }
                }
                nov = nov.join(diff_scalar(state, scope, label, &old_out.entries[i].1.path, &v2.path));
                proof {
                    lemma_extended_trans(old(scope)@, pre_scope, scope@);
                    lemma_has_change_extend(pre_scope, scope@, old(scope)@.len() as int);
                    if scope@ == old(scope)@ {
                        assert(pre_scope.is_prefix_of(scope@));
                        assert(pre_scope =~= old(scope)@);
                        assert(old_out.entries@[i as int].1.path@ == v2.path@);
                        assert(outputs_view(old_out)[i as int] == (
                            old_out.keys()[i as int],
                            old_out.entries@[i as int].1.path@,
                        ));
                        assert(outputs_view(new_out)[i as int] == (
                            new_out.keys()[i as int],
                            new_out.entries@[i as int].1.path@,
                        ));
                        assert(outputs_view(old_out)[i as int].1 == outputs_view(new_out)[i as int].1);
                    }
                }
            },
            None => {
                proof {
                    if scope@ == old(scope)@ {
                        assert(new_out.contains_key(new_out.keys()[i as int]));
                        assert(false);
                    }
                }
            },
        }
    }
    proof {
        if scope@ == old(scope)@ {
            assert forall|j: int| 0 <= j < outputs_view(old_out).len() implies outputs_view(old_out)[j]
                == outputs_view(new_out)[j] by {
                assert(outputs_view(old_out)[j] == (old_out.keys()[j], old_out.entries@[j].1.path@));
                assert(outputs_view(new_out)[j] == (new_out.keys()[j], new_out.entries@[j].1.path@));
                assert(outputs_view(old_out)[j].1 == outputs_view(new_out)[j].1);
            }
            assert(outputs_view(old_out) =~= outputs_view(new_out));
        }
    }
    nov
}

/// How many distinct comparisons one run is expected to make; sizes the memo
/// tables up front.
const DERIVATIONS_TO_COMPARE: usize = 2048;

/// The rank map witnesses that the graph under `d` is acyclic: every
/// referenced derivation ranks strictly below its referrer.
pub open spec fn ranked(rank: Map<Seq<char>, nat>, d: &Derivation) -> bool {
    &&& rank.dom().contains(d.path@)
    &&& forall|j: int|
        #![trigger d.input_drvs.keys()[j]]
        0 <= j < d.input_drvs.entries@.len() ==> rank.dom().contains(d.input_drvs.keys()[j])
            && rank[d.input_drvs.keys()[j]] < rank[d.path@]
}

/// The rank map covers every derivation the resolver holds.
pub open spec fn rank_ok(rank: Map<Seq<char>, nat>, resolver: &Derivations) -> bool {
    forall|i: int|
        #![trigger resolver.0.entries@[i]]
        0 <= i < resolver.0.entries@.len() ==> ranked(rank, &resolver.0.entries@[i].1)
}

/// The dependency graphs under the two derivations are acyclic: some rank map
/// witnesses it. Recipe graphs are acyclic by construction — a recipe's
/// inputs must exist before it can be built — so this holds of real input.
pub open spec fn acyclic(resolver: &Derivations, old_d: &Derivation, new_d: &Derivation) -> bool {
    exists|rank: Map<Seq<char>, nat>|
        rank_ok(rank, resolver) && ranked(rank, old_d) && ranked(rank, new_d)
}

/// Resolves each referenced path of `d` to the name of its record.
fn resolve_names(d: &Dict<Input>, resolver: &Derivations) -> (r: Result<Vec<String>, DiffError>)
    requires
        resolver.wf(),
    ensures
        match r {
            Ok(names) => names@.len() == d.entries@.len() && forall|i: int|
                0 <= i < names@.len() ==> resolver.contains_path(#[trigger] d.keys()[i])
                    && names@[i]@ == resolver_at(resolver, d.keys()[i]).name@,
            Err(e) => match e {
                DiffError::UnresolvableReference { path } => !resolver.contains_path(path@)
                    && d.contains_key(path@),
            },
        },
{
    let mut names: Vec<String> = Vec::new();
    for i in 0..d.entries.len()
        invariant
            resolver.wf(),
            names@.len() == i,
            forall|j: int|
                0 <= j < i ==> resolver.contains_path(#[trigger] d.keys()[j]) && names@[j]@
                    == resolver_at(resolver, d.keys()[j]).name@,
    {
        proof {
            assert(d.keys()[i as int] == d.entries@[i as int].0@);
        }
        match resolver.get(d.entries[i].0.as_str()) {
            Some(dd) => {
                names.push(dd.name.clone());
            },
            None => {
                return Err(DiffError::UnresolvableReference { path: d.entries[i].0.clone() });
            },
        }
    }
    Ok(names)
}

/// Where the args comparison's event stands in a flushed scope: right after
/// the header, or one later when a builder event precedes it.
pub open spec fn args_event_index(old_d: &Derivation, new_d: &Derivation) -> int {
    if old_d.builder@ != new_d.builder@ {
        2
    } else {
        1
    }
}

/// Compares one pair of derivations, appending any visible information as a
/// flushed scope to `out`.
///
/// Equal paths short-circuit to `Boring`: content addressing guarantees no
/// structural difference exists beneath. Otherwise each field is compared,
/// referenced derivations are paired up by their names — a name on one side
/// only is a pure addition or removal, shown by the name-set diff — and the
/// paired records are compared recursively in referenced order. A scope that
/// gathered nothing beyond its header is discarded whole; the returned
/// novelty says whether some fresh change block was rendered beneath this
/// pair.
#[verifier::rlimit(60)]
fn diff_pair(
    state: &mut DiffState,
    out: &mut Vec<DiffEvent>,
    old_d: &Derivation,
    new_d: &Derivation,
    resolver: &Derivations,
    Ghost(rank): Ghost<Map<Seq<char>, nat>>,
) -> (r: Result<DiffNovelty, DiffError>)
    requires
        resolver.wf(),
        old_d.wf(),
        new_d.wf(),
        rank_ok(rank, resolver),
        ranked(rank, old_d),
        ranked(rank, new_d),
    ensures
        events_extended(old(out)@, final(out)@),
        r is Err ==> final(out)@ == old(out)@,
        old_d.path@ == new_d.path@ ==> r == Ok::<DiffNovelty, DiffError>(DiffNovelty::Boring)
            && final(out)@ == old(out)@ && *final(state) == *old(state),
        matching_fields(old_d, new_d) && all_inputs_resolvable(old_d, resolver) ==> r
            == Ok::<DiffNovelty, DiffError>(DiffNovelty::Boring) && final(out)@ == old(out)@
            && *final(state) == *old(state),
        r matches Err(e) ==> match e {
            DiffError::UnresolvableReference { path } => !resolver.contains_path(path@),
        },
        closed_resolver(resolver) && all_inputs_resolvable(old_d, resolver)
            && all_inputs_resolvable(new_d, resolver) ==> r is Ok,
        old_d.path@ != new_d.path@ && !(all_inputs_resolvable(old_d, resolver)
            && all_inputs_resolvable(new_d, resolver)) ==> r is Err,
        old_d.path@ != new_d.path@ && old_d.builder@ != new_d.builder@ && r is Ok ==> final(out)@.len() > old(out)@.len() + 1 && scalar_compare_event(
            final(out)@[old(out)@.len() as int + 1],
            "builder"@,
            old_d.builder@,
            new_d.builder@,
            old(state).scalar_comparisons@,
        ),
        old_d.path@ != new_d.path@ && str_views(old_d.args@) != str_views(new_d.args@) && r is Ok
            ==> final(out)@.len() > old(out)@.len() + args_event_index(old_d, new_d)
            && sequence_compare_event(
            final(out)@[old(out)@.len() as int + args_event_index(old_d, new_d)],
            "args"@,
            str_views(old_d.args@),
            str_views(new_d.args@),
            old(state).sequence_comparisons@,
        ),
        r == Ok::<DiffNovelty, DiffError>(DiffNovelty::Novel) ==> final(out)@.len() > old(out)@.len(),
        r matches Ok(n) ==> ((n == DiffNovelty::Novel) == has_change_from(
            final(out)@,
            old(out)@.len() as int,
        )),
        r is Ok && final(out)@.len() > old(out)@.len() ==> final(out)@[old(out)@.len() as int]
            == (DiffEvent::EnterPair { old_id: old_d.path, new_id: new_d.path }) && final(out)@.last()
            == DiffEvent::LeavePair,
        old_d.path@ != new_d.path@ && !direct_fields_match(old_d, new_d) && r is Ok ==> final(out)@.len() > old(out)@.len(),
    decreases rank[old_d.path@] + rank[new_d.path@],
{
    let ghost state0 = *state;
    if str_eq(old_d.path.as_str(), new_d.path.as_str()) {
        return Ok(DiffNovelty::Boring);
    }
    let ghost mf = matching_fields(old_d, new_d) && all_inputs_resolvable(old_d, resolver);
    let mut scope: Vec<DiffEvent> = Vec::new();
    scope.push(
        DiffEvent::EnterPair { old_id: old_d.path.clone(), new_id: new_d.path.clone() },
    );
    let ghost header = scope@;
    proof {
        assert(!has_change_from(header, 0)) by {
            assert(forall|k: int| 0 <= k < header.len() ==> !((#[trigger] header[k]) is ValueChanged));
        }
    }
    let mut nov = DiffNovelty::Boring;
    nov = nov.join(
        diff_scalar(state, &mut scope, String::from_str("builder"), &old_d.builder, &new_d.builder),
    );
    let ghost s1 = scope@;
    proof {
        lemma_has_change_extend(header, s1, 0);
        if old_d.builder@ != new_d.builder@ {
            assert(s1.len() == 2 && s1[1] == s1.last());
            assert(scalar_compare_event(
                s1[1],
                "builder"@,
                old_d.builder@,
                new_d.builder@,
                state0.scalar_comparisons@,
            ));
        } else {
            assert(s1 == header);
        }
    }
    nov = nov.join(
        diff_sequence(state, &mut scope, String::from_str("args"), &old_d.args, &new_d.args),
    );
    let ghost s2 = scope@;
    proof {
        lemma_has_change_extend(s1, s2, 0);
        if str_views(old_d.args@) != str_views(new_d.args@) {
            assert(s1.len() == args_event_index(old_d, new_d));
            assert(s2.len() == s1.len() + 1 && s2[s1.len() as int] == s2.last());
            assert(sequence_compare_event(
                s2[args_event_index(old_d, new_d)],
                "args"@,
                str_views(old_d.args@),
                str_views(new_d.args@),
                state0.sequence_comparisons@,
            ));
        }
    }
    nov = nov.join(diff_env(state, &mut scope, &old_d.env, &new_d.env));
    let ghost s3 = scope@;
    proof {
        lemma_has_change_extend(s2, s3, 0);
    }
    nov = nov.join(
        diff_sequence(
            state,
            &mut scope,
            String::from_str("input_srcs"),
            &old_d.input_srcs,
            &new_d.input_srcs,
        ),
    );
    let ghost s4 = scope@;
    proof {
        lemma_has_change_extend(s3, s4, 0);
    }
    nov = nov.join(diff_outputs(state, &mut scope, &old_d.outputs, &new_d.outputs));
    let ghost s5 = scope@;
    proof {
        lemma_has_change_extend(s4, s5, 0);
    }
    nov = nov.join(
        diff_scalar(state, &mut scope, String::from_str("system"), &old_d.system, &new_d.system),
    );
    let ghost s6 = scope@;
    proof {
        lemma_has_change_extend(s5, s6, 0);
        if s6 == header {
            assert(header.len() <= s1.len() <= s2.len() <= s3.len() <= s4.len() <= s5.len()
                <= s6.len());
            lemma_prefix_eq(header, s1);
            lemma_prefix_eq(s1, s2);
            lemma_prefix_eq(s2, s3);
            lemma_prefix_eq(s3, s4);
            lemma_prefix_eq(s4, s5);
            lemma_prefix_eq(s5, s6);
            assert(direct_fields_match(old_d, new_d));
        }
        if mf {
            assert(scope@ == header && *state == state0 && nov == DiffNovelty::Boring);
        }
    }
    let old_names = match resolve_names(&old_d.input_drvs, resolver) {
        Ok(v) => v,
        Err(e) => {
            proof {
                if all_inputs_resolvable(old_d, resolver) {
                    match &e {
                        DiffError::UnresolvableReference { path } => {
                            let w = choose|w: int|
                                0 <= w < old_d.input_drvs.keys().len()
                                    && #[trigger] old_d.input_drvs.keys()[w] == path@;
                            assert(resolver.contains_path(old_d.input_drvs.keys()[w]));
                            assert(false);
                        },
                    }
                }
            }
            return Err(e);
        },
    };
    let new_names = match resolve_names(&new_d.input_drvs, resolver) {
        Ok(v) => v,
        Err(e) => {
            proof {
                if all_inputs_resolvable(new_d, resolver) {
                    match &e {
                        DiffError::UnresolvableReference { path } => {
                            let w = choose|w: int|
                                0 <= w < new_d.input_drvs.keys().len()
                                    && #[trigger] new_d.input_drvs.keys()[w] == path@;
                            assert(resolver.contains_path(new_d.input_drvs.keys()[w]));
                            assert(false);
                        },
                    }
                }
                if mf {
                    assert(old_d.input_drvs.keys().len() == new_d.input_drvs.keys().len()) by {
                        assert(input_drvs_view(&old_d.input_drvs).len()
                            == old_d.input_drvs.entries@.len());
                        assert(input_drvs_view(&new_d.input_drvs).len()
                            == new_d.input_drvs.entries@.len());
                    }
                    assert forall|x: int| 0 <= x < new_d.input_drvs.keys().len() implies
                        resolver.contains_path(#[trigger] new_d.input_drvs.keys()[x]) by {
                        assert(input_drvs_view(&old_d.input_drvs)[x] == (
                            old_d.input_drvs.keys()[x],
                            str_views(old_d.input_drvs.entries@[x].1.outputs@),
                        ));
                        assert(input_drvs_view(&new_d.input_drvs)[x] == (
                            new_d.input_drvs.keys()[x],
                            str_views(new_d.input_drvs.entries@[x].1.outputs@),
                        ));
                        assert(new_d.input_drvs.keys()[x] == old_d.input_drvs.keys()[x]);
                        assert(resolver.contains_path(old_d.input_drvs.keys()[x]));
                    }
                    assert(all_inputs_resolvable(new_d, resolver));
                    assert(false);
                }
            }
            return Err(e);
        },
    };
    proof {
        assert(all_inputs_resolvable(old_d, resolver));
        assert(all_inputs_resolvable(new_d, resolver));
        if mf {
            assert(old_d.input_drvs.keys().len() == new_d.input_drvs.keys().len()) by {
                assert(input_drvs_view(&old_d.input_drvs).len()
                    == old_d.input_drvs.entries@.len());
                assert(input_drvs_view(&new_d.input_drvs).len()
                    == new_d.input_drvs.entries@.len());
            }
            assert forall|x: int| 0 <= x < old_d.input_drvs.keys().len() implies
                old_d.input_drvs.keys()[x] == new_d.input_drvs.keys()[x] by {
                assert(input_drvs_view(&old_d.input_drvs)[x] == (
                    old_d.input_drvs.keys()[x],
                    str_views(old_d.input_drvs.entries@[x].1.outputs@),
                ));
                assert(input_drvs_view(&new_d.input_drvs)[x] == (
                    new_d.input_drvs.keys()[x],
                    str_views(new_d.input_drvs.entries@[x].1.outputs@),
                ));
            }
            assert forall|x: int| 0 <= x < old_names@.len() implies old_names@[x]@
                == new_names@[x]@ by {
                assert(old_names@[x]@ == resolver_at(resolver, old_d.input_drvs.keys()[x]).name@);
                assert(new_names@[x]@ == resolver_at(resolver, new_d.input_drvs.keys()[x]).name@);
            }
            assert(str_views(old_names@) =~= str_views(new_names@));
        }
    }
    if !str_vec_eq(&old_names, &new_names) {
        nov = nov.join(
            diff_sequence(
                state,
                &mut scope,
                String::from_str("input_drvs"),
                &old_names,
                &new_names,
            ),
        );
    }
    let ghost s7 = scope@;
    proof {
        assert(events_extended(s6, s7)) by {
            if s7 == s6 {
                assert(s6 =~= s6.subrange(0, s6.len() as int));
            }
        }
        lemma_has_change_extend(s6, s7, 0);
        if mf {
            assert(scope@ == header && *state == state0 && nov == DiffNovelty::Boring);
        }
    }
    proof {
        lemma_extended_trans(header, s1, s2);
        lemma_extended_trans(header, s2, s3);
        lemma_extended_trans(header, s3, s4);
        lemma_extended_trans(header, s4, s5);
        lemma_extended_trans(header, s5, s6);
        lemma_extended_trans(header, s6, s7);
        lemma_extended_trans(s1, s2, s3);
        lemma_extended_trans(s1, s3, s4);
        lemma_extended_trans(s1, s4, s5);
        lemma_extended_trans(s1, s5, s6);
        lemma_extended_trans(s1, s6, s7);
        lemma_extended_trans(s2, s3, s4);
        lemma_extended_trans(s2, s4, s5);
        lemma_extended_trans(s2, s5, s6);
        lemma_extended_trans(s2, s6, s7);
        assert(header =~= seq![
            (DiffEvent::EnterPair { old_id: old_d.path, new_id: new_d.path }),
        ]);
        assert(event_wf(header[0]));
        assert forall|x: int| 0 <= x < scope@.len() implies event_wf(#[trigger] scope@[x]) by {
            if x == 0 {
                assert(scope@[0] == header.subrange(0, 1)[0]);
            }
        }
        assert(scope@[0] == header[0]) by {
            assert(header[0] == scope@.subrange(0, header.len() as int)[0]);
        }
        if s7 == header {
            assert(s6.len() == 1) by {
                assert(header.len() <= s6.len() <= s7.len());
            }
            lemma_prefix_eq(header, s6);
            assert(s6 == header);
            assert(direct_fields_match(old_d, new_d));
        }
    }
    let mut used: Vec<bool> = Vec::new();
    for t in 0..new_names.len()
        invariant
            used@.len() == t,
            forall|x: int| 0 <= x < t ==> !(#[trigger] used@[x]),
    {
        used.push(false);
    }
    let old_count = old_d.input_drvs.entries.len();
    for i in 0..old_count
        invariant
            resolver.wf(),
            old_d.wf(),
            new_d.wf(),
            rank_ok(rank, resolver),
            ranked(rank, old_d),
            ranked(rank, new_d),
            old_d.path@ != new_d.path@,
            old_count == old_d.input_drvs.entries@.len(),
            old_names@.len() == old_d.input_drvs.entries@.len(),
            new_names@.len() == new_d.input_drvs.entries@.len(),
            used@.len() == new_names@.len(),
            forall|x: int|
                0 <= x < old_names@.len() ==> resolver.contains_path(
                    #[trigger] old_d.input_drvs.keys()[x],
                ) && old_names@[x]@ == resolver_at(resolver, old_d.input_drvs.keys()[x]).name@,
            forall|x: int|
                0 <= x < new_names@.len() ==> resolver.contains_path(
                    #[trigger] new_d.input_drvs.keys()[x],
                ) && new_names@[x]@ == resolver_at(resolver, new_d.input_drvs.keys()[x]).name@,
            mf == (matching_fields(old_d, new_d) && all_inputs_resolvable(old_d, resolver)),
            header == seq![
                (DiffEvent::EnterPair { old_id: old_d.path, new_id: new_d.path }),
            ],
            events_extended(s7, scope@),
            events_extended(header, scope@),
            forall|x: int| 0 <= x < scope@.len() ==> event_wf(#[trigger] scope@[x]),
            scope@[0] == (DiffEvent::EnterPair { old_id: old_d.path, new_id: new_d.path }),
            scope@.len() >= 1,
            out@ == old(out)@,
            mf ==> scope@ == header && *state == state0 && nov == DiffNovelty::Boring,
            mf ==> str_views(old_names@) == str_views(new_names@),
            mf ==> forall|x: int| 0 <= x < used@.len() ==> ((#[trigger] used@[x]) <==> x < i),
            events_extended(header, s7),
            s7 == header ==> direct_fields_match(old_d, new_d),
            nov == DiffNovelty::Novel ==> scope@.len() > 1,
            (nov == DiffNovelty::Novel) == has_change_from(scope@, 0),
            scope@.len() == 1 ==> scope@ == header,
    {
        let mut j: usize = 0;
        while j < new_names.len() && (used[j] || !str_eq(
            new_names[j].as_str(),
            old_names[i].as_str(),
        ))
            invariant
                used@.len() == new_names@.len(),
                i < old_names@.len(),
                j <= new_names@.len(),
                forall|x: int|
                    0 <= x < j ==> (#[trigger] used@[x]) || new_names@[x]@ != old_names@[i as int]@,
                mf ==> forall|x: int| 0 <= x < used@.len() ==> ((#[trigger] used@[x]) <==> x < i),
                mf ==> str_views(old_names@) == str_views(new_names@),
                mf ==> old_names@.len() == new_names@.len(),
                mf ==> j <= i,
            decreases new_names@.len() - j,
        {
            proof {
                if mf {
                    if j < i {
                        assert(used@[j as int]);
                    } else {
                        assert(str_views(new_names@)[j as int]
                            == str_views(old_names@)[i as int]);
                    }
                }
            }
            j = j + 1;
        }
        proof {
            if mf {
                assert(i < new_names@.len());
                assert(str_views(new_names@)[i as int] == str_views(old_names@)[i as int]);
                assert(!used@[i as int]);
                assert(j == i);
            }
        }
        if j < new_names.len() {
            used.set(j, true);
            let ghost s_pre = scope@;
            let mut label = String::from_str("input_drvs.");
            label.append(old_names[i].as_str());
            proof {
                assert(input_drvs_view(&old_d.input_drvs)[i as int] == (
                    old_d.input_drvs.keys()[i as int],
                    str_views(old_d.input_drvs.entries@[i as int].1.outputs@),
                ));
                if mf {
                    assert(input_drvs_view(&new_d.input_drvs)[i as int] == (
                        new_d.input_drvs.keys()[i as int],
                        str_views(new_d.input_drvs.entries@[i as int].1.outputs@),
                    ));
                    assert(str_views(old_d.input_drvs.entries@[i as int].1.outputs@)
                        == str_views(new_d.input_drvs.entries@[j as int].1.outputs@));
                }
            }
            nov = nov.join(
                diff_sequence(
                    state,
                    &mut scope,
                    label,
                    &old_d.input_drvs.entries[i].1.outputs,
                    &new_d.input_drvs.entries[j].1.outputs,
                ),
            );
            proof {
                lemma_extended_trans(header, s_pre, scope@);
                lemma_extended_trans(s7, s_pre, scope@);
                lemma_has_change_extend(s_pre, scope@, 0);
            }
            let ghost s_mid = scope@;
            proof {
                assert(old_d.input_drvs.keys()[i as int]
                    == old_d.input_drvs.entries@[i as int].0@);
                assert(new_d.input_drvs.keys()[j as int]
                    == new_d.input_drvs.entries@[j as int].0@);
            }
            let od = match resolver.get(old_d.input_drvs.entries[i].0.as_str()) {
                Some(x) => x,
                None => {
                    proof {
                        assert(resolver.contains_path(old_d.input_drvs.keys()[i as int]));
                        assert(false);
                    }
                    return Err(DiffError::UnresolvableReference {
                        path: String::from_str(""),
                    });
                },
            };
            let nd = match resolver.get(new_d.input_drvs.entries[j].0.as_str()) {
                Some(x) => x,
                None => {
                    proof {
                        assert(resolver.contains_path(new_d.input_drvs.keys()[j as int]));
                        assert(false);
                    }
                    return Err(DiffError::UnresolvableReference {
                        path: String::from_str(""),
                    });
                },
            };
            proof {
                let co = choose|c: int|
                    0 <= c < resolver.0.entries@.len() && resolver.0.keys()[c]
                        == old_d.input_drvs.keys()[i as int];
                assert(resolver.0.entries@[co] == resolver.0.entries@[co]);
                assert(ranked(rank, &resolver.0.entries@[co].1));
                assert(*od == resolver.0.entries@[co].1);
                let cn = choose|c: int|
                    0 <= c < resolver.0.entries@.len() && resolver.0.keys()[c]
                        == new_d.input_drvs.keys()[j as int];
                assert(ranked(rank, &resolver.0.entries@[cn].1));
                assert(*nd == resolver.0.entries@[cn].1);
                assert(rank[od.path@] < rank[old_d.path@]);
                assert(rank[nd.path@] < rank[new_d.path@]);
            }
            let child = diff_pair(state, &mut scope, od, nd, resolver, Ghost(rank));
            proof {
                lemma_extended_trans(header, s_mid, scope@);
                lemma_extended_trans(s7, s_mid, scope@);
                lemma_has_change_extend(s_mid, scope@, 0);
            }
            match child {
                Ok(n) => {
                    nov = nov.join(n);
                    proof {
                        if mf {
                            assert(od.path@ == old_d.input_drvs.keys()[i as int]);
                            assert(nd.path@ == new_d.input_drvs.keys()[j as int]);
                            assert(od.path@ == nd.path@);
                            assert(scope@ == s_mid && s_mid == s_pre && s_pre == header);
                        }
                    }
                },
                Err(e) => {
                    proof {
                        if mf {
                            assert(od.path@ == old_d.input_drvs.keys()[i as int]);
                            assert(nd.path@ == new_d.input_drvs.keys()[j as int]);
                            assert(od.path@ == nd.path@);
                            assert(false);
                        }
                        if closed_resolver(resolver) && all_inputs_resolvable(old_d, resolver)
                            && all_inputs_resolvable(new_d, resolver) {
                            let co = choose|c: int|
                                0 <= c < resolver.0.entries@.len() && resolver.0.keys()[c]
                                    == old_d.input_drvs.keys()[i as int];
                            assert(all_inputs_resolvable(&resolver.0.entries@[co].1, resolver));
                            let cn = choose|c: int|
                                0 <= c < resolver.0.entries@.len() && resolver.0.keys()[c]
                                    == new_d.input_drvs.keys()[j as int];
                            assert(all_inputs_resolvable(&resolver.0.entries@[cn].1, resolver));
                            assert(false);
                        }
                    }
                    return Err(e);
                },
            }
            proof {
                assert(event_wf(header[0]));
                assert(scope@[0] == header[0]) by {
                    assert(header[0] == scope@.subrange(0, header.len() as int)[0]);
                }
                assert forall|x: int| 0 <= x < scope@.len() implies event_wf(
                    #[trigger] scope@[x],
                ) by {
                    if x == 0 {
                        assert(scope@[0] == header[0]);
                    }
                }
                if scope@.len() == 1 {
                    lemma_prefix_eq(header, scope@);
                    lemma_prefix_eq(s7, scope@);
                }
            }
        }
    }
    if scope.len() == 1 {
        proof {
            lemma_prefix_eq(header, scope@);
            assert(s7.len() == 1) by {
                assert(header.len() <= s7.len());
                assert(s7.len() <= scope@.len());
            }
            lemma_prefix_eq(header, s7);
            assert(direct_fields_match(old_d, new_d));
            assert(nov == DiffNovelty::Boring);
        }
        return Ok(DiffNovelty::Boring);
    }
    proof {
        lemma_extended_trans(s1, s7, scope@);
        lemma_extended_trans(s2, s7, scope@);
        if old_d.builder@ != new_d.builder@ {
            assert(scope@[1] == s1[1]) by {
                assert(s1[1] == scope@.subrange(0, s1.len() as int)[1]);
            }
        }
        if str_views(old_d.args@) != str_views(new_d.args@) {
            let p = args_event_index(old_d, new_d);
            assert(scope@[p] == s2[p]) by {
                assert(s2[p] == scope@.subrange(0, s2.len() as int)[p]);
            }
        }
    }
    let ghost body = scope@;
    scope.push(DiffEvent::LeavePair);
    let ghost flushed = scope@;
    proof {
        lemma_has_change_push(body, DiffEvent::LeavePair, 0);
    }
    out.append(&mut scope);
    proof {
        assert(out@ =~= old(out)@ + flushed);
        assert(has_change_from(out@, old(out)@.len() as int) == has_change_from(flushed, 0)) by {
            if has_change_from(flushed, 0) {
                let k = choose|k: int|
                    0 <= k < flushed.len() && (#[trigger] flushed[k]) is ValueChanged;
                assert(out@[old(out)@.len() + k] is ValueChanged);
            }
            if has_change_from(out@, old(out)@.len() as int) {
                let k = choose|k: int|
                    old(out)@.len() <= k < out@.len() && (#[trigger] out@[k]) is ValueChanged;
                assert(flushed[k - old(out)@.len()] is ValueChanged);
            }
        }
        assert(out@[old(out)@.len() as int] == flushed[0]);
        if old_d.builder@ != new_d.builder@ {
            assert(out@[old(out)@.len() as int + 1] == flushed[1]);
            assert(flushed[1] == flushed.drop_last()[1]);
        }
        if str_views(old_d.args@) != str_views(new_d.args@) {
            let p = args_event_index(old_d, new_d);
            assert(out@[old(out)@.len() as int + p] == flushed[p]);
            assert(flushed[p] == flushed.drop_last()[p]);
        }
        assert forall|x: int| old(out)@.len() <= x < out@.len() implies event_wf(
            #[trigger] out@[x],
        ) by {
            assert(out@[x] == flushed[x - old(out)@.len()]);
        }
        assert(old(out)@ =~= out@.subrange(0, old(out)@.len() as int));
        if mf {
            assert(false);
        }
    }
    Ok(nov)
}

/// What holds of the event stream of one whole run, started against fresh
/// memo tables: every change block carries its own edit script; the stream
/// is empty where the identifiers agree or every compared field and
/// reference agrees, and nonempty where a directly compared field differs;
/// a nonempty stream opens with the two compared identifiers and closes its
/// scope; and the first two field comparisons — a differing builder, then
/// differing args — stand at fixed places with their full change blocks,
/// fresh because the run's memo tables start empty.
pub open spec fn run_events_ok(
    events: Seq<DiffEvent>,
    old_d: &Derivation,
    new_d: &Derivation,
    resolver: &Derivations,
) -> bool {
    &&& forall|i: int| 0 <= i < events.len() ==> event_wf(#[trigger] events[i])
    &&& old_d.path@ == new_d.path@ ==> events == Seq::<DiffEvent>::empty()
    &&& matching_fields(old_d, new_d) && all_inputs_resolvable(old_d, resolver) ==> events
        == Seq::<DiffEvent>::empty()
    &&& events.len() > 0 ==> (events[0] matches DiffEvent::EnterPair { old_id, new_id }
        && old_id@ == old_d.path@ && new_id@ == new_d.path@)
    &&& events.len() > 0 ==> events.last() == DiffEvent::LeavePair
    &&& old_d.path@ != new_d.path@ && !direct_fields_match(old_d, new_d) ==> events.len() > 0
    &&& old_d.path@ != new_d.path@ && old_d.builder@ != new_d.builder@ ==> events.len() > 1
        && scalar_change_event(events[1], "builder"@, old_d.builder@, new_d.builder@)
    &&& old_d.path@ != new_d.path@ && str_views(old_d.args@) != str_views(new_d.args@)
        ==> events.len() > args_event_index(old_d, new_d) && sequence_change_event(
        events[args_event_index(old_d, new_d)],
        "args"@,
        str_views(old_d.args@),
        str_views(new_d.args@),
    )
}

/// Diffs two derivation graphs and renders the report.
///
/// The report is the joined rendering of an event stream satisfying
/// `run_events_ok`. An empty report means the graphs hold no visible
/// difference: in particular a derivation diffed against itself, and a pair
/// whose every compared field agrees while only identifiers shifted, both
/// render nothing. A reference the resolver cannot produce on either side of
/// a differing pair surfaces as an error rather than the subtree being
/// skipped silently.
pub fn diff_derivations(
    old_d: &Derivation,
    new_d: &Derivation,
    resolver: &Derivations,
    color: bool,
) -> (r: Result<String, DiffError>)
    requires
        old_d.wf(),
        new_d.wf(),
        resolver.wf(),
        acyclic(resolver, old_d, new_d),
    ensures
        old_d.path@ == new_d.path@ ==> (r matches Ok(s) && s@ == Seq::<char>::empty()),
        matching_fields(old_d, new_d) && all_inputs_resolvable(old_d, resolver) ==> (r matches Ok(
            s,
        ) && s@ == Seq::<char>::empty()),
        r matches Ok(s) ==> (old_d.path@ != new_d.path@ && !direct_fields_match(old_d, new_d)
            ==> s@.len() > 0),
        r matches Err(e) ==> match e {
            DiffError::UnresolvableReference { path } => !resolver.contains_path(path@),
        },
        closed_resolver(resolver) && all_inputs_resolvable(old_d, resolver)
            && all_inputs_resolvable(new_d, resolver) ==> r is Ok,
        old_d.path@ != new_d.path@ && !(all_inputs_resolvable(old_d, resolver)
            && all_inputs_resolvable(new_d, resolver)) ==> r is Err,
        r matches Ok(s) ==> exists|events: Seq<DiffEvent>|
            run_events_ok(events, old_d, new_d, resolver) && s@ == joined(
                events_lines(events, color),
            ),
{
    let ghost rank = choose|rank: Map<Seq<char>, nat>|
        rank_ok(rank, resolver) && ranked(rank, old_d) && ranked(rank, new_d);
    let mut state = DiffState {
        scalar_comparisons: FxStringDiffSet::with_capacity(DERIVATIONS_TO_COMPARE),
        sequence_comparisons: FxStringsDiffSet::with_capacity(DERIVATIONS_TO_COMPARE),
    };
    let mut events: Vec<DiffEvent> = Vec::new();
    match diff_pair(&mut state, &mut events, old_d, new_d, resolver, Ghost(rank)) {
        Ok(nov) => {
            let lines = render_events(&events, color);
            let text = join_lines(&lines);
            proof {
                if events@.len() == 0 {
                    assert(events_lines(events@, color) =~= Seq::empty());
                    assert(str_views(lines@).len() == 0);
                    assert(lines@.len() == 0);
                    assert(text@ =~= Seq::<char>::empty());
                } else {
                    assert(events@[0] == (DiffEvent::EnterPair {
                        old_id: old_d.path,
                        new_id: new_d.path,
                    }) ==> events_lines(events@, color).len() >= 2) by {
                        if events@[0] == (DiffEvent::EnterPair {
                            old_id: old_d.path,
                            new_id: new_d.path,
                        }) {
                            assert(events_lines(events@, color).len() >= 2);
                        }
                    }
                }
                if old_d.path@ != new_d.path@ && !direct_fields_match(old_d, new_d) {
                    assert(events@.len() > 0);
                    assert(str_views(lines@).len() >= 2);
                    assert(lines@.len() >= 2);
                    crate::render::lemma_joined_nonempty(str_views(lines@));
                }
                if events@.len() == 0 {
                    assert(events@ =~= Seq::<DiffEvent>::empty());
                }
                assert(run_events_ok(events@, old_d, new_d, resolver));
                assert(text@ == joined(events_lines(events@, color)));
            }
            Ok(text)
        },
        Err(e) => Err(e),
    }
}

} // verus!
