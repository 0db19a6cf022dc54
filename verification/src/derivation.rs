//! The recipe model: one build derivation, its declared inputs and outputs,
//! and the set of derivations a diff run may resolve referenced identifiers
//! against.
//!
//! A derivation is fully determined by its `path` (the content-addressed
//! identifier): equal paths mean structurally identical records. Keyed fields
//! are held as entry lists strictly sorted by key, so walking them is
//! deterministic and repeated runs over the same graphs render identically.

use vstd::prelude::*;

use crate::order::lemma_seq_lt_trichotomy;
use crate::order::lemma_sorted_distinct;
use crate::order::lemma_seq_lt_trans;
use crate::order::seq_lt;
use crate::order::str_eq;
use crate::order::str_lt;
use crate::order::str_views;
use crate::order::strictly_sorted;

verus! {

/// An association list strictly sorted by its string keys.
#[derive(Debug)]
pub struct Dict<V> {
    pub entries: Vec<(String, V)>,
}

impl<V> Dict<V> {
    /// The key of each entry, in storage order.
    pub open spec fn keys(&self) -> Seq<Seq<char>> {
        self.entries@.map_values(|e: (String, V)| e.0@)
    }

    /// The keys are strictly increasing (hence unique).
    pub open spec fn wf(&self) -> bool {
        strictly_sorted(self.keys())
    }

    pub open spec fn contains_key(&self, k: Seq<char>) -> bool {
        self.keys().contains(k)
    }

    pub fn new() -> (d: Self)
        ensures
            d.entries@ =~= Seq::empty(),
            d.wf(),
    {
        Dict { entries: Vec::new() }
    }

    pub fn len(&self) -> (n: usize)
        ensures
            n == self.entries@.len(),
    {
        self.entries.len()
    }

    /// Looks a key up; `Some` holds the value stored beside that key.
    pub fn get(&self, k: &str) -> (r: Option<&V>)
        ensures
            match r {
                Some(v) => exists|i: int|
                    0 <= i < self.entries@.len() && #[trigger] self.keys()[i] == k@ && *v
                        == self.entries@[i].1,
                None => !self.contains_key(k@),
            },
    {
        for i in 0..self.entries.len()
            invariant
                forall|j: int| 0 <= j < i ==> #[trigger] self.keys()[j] != k@,
        {
            if str_eq(self.entries[i].0.as_str(), k) {
                proof {
                    assert(self.keys()[i as int] == k@);
                }
                return Some(&self.entries[i].1);
            }
        }
        proof {
            assert(forall|i: int|
                0 <= i < self.keys().len() ==> #[trigger] self.keys()[i] != k@);
        }
        None
    }

    /// Inserts at the sorted position. Reports `false`, changing nothing, if
    /// the key is already present.
    pub fn insert(&mut self, k: String, v: V) -> (added: bool)
        requires
            old(self).wf(),
        ensures
            final(self).wf(),
            added == !old(self).contains_key(k@),
            added ==> exists|idx: int|
                0 <= idx <= old(self).entries@.len() && final(self).entries@ == old(
                    self,
                ).entries@.insert(idx, (k, v)),
            !added ==> *final(self) == *old(self),
    {
        let mut i: usize = 0;
        while i < self.entries.len() && str_lt(self.entries[i].0.as_str(), k.as_str())
            invariant
                i <= self.entries@.len(),
                self == old(self),
                forall|j: int| 0 <= j < i ==> seq_lt(#[trigger] self.keys()[j], k@),
            decreases self.entries@.len() - i,
        {
            i = i + 1;
        }
        if i < self.entries.len() && str_eq(self.entries[i].0.as_str(), k.as_str()) {
            proof {
                assert(self.keys()[i as int] == k@);
                assert(self.contains_key(k@));
            }
            return false;
        }
        proof {
            assert forall|j: int| i <= j < self.entries@.len() implies seq_lt(
                k@,
                #[trigger] self.keys()[j],
            ) by {
                lemma_seq_lt_trichotomy(self.keys()[i as int], k@);
                if j > i {
                    lemma_seq_lt_trans(k@, self.keys()[i as int], self.keys()[j]);
                }
            }
            assert forall|j: int| 0 <= j < self.entries@.len() implies self.keys()[j]
                != k@ by {
                if j < i {
                    lemma_seq_lt_trichotomy(self.keys()[j], k@);
                } else {
                    lemma_seq_lt_trichotomy(k@, self.keys()[j]);
                }
            }
            assert(!self.contains_key(k@));
        }
        let ghost pre = self.entries@;
        let ghost ki = k@;
        self.entries.insert(i, (k, v));
        proof {
            let post = self.entries@;
            assert forall|a: int, b: int| 0 <= a < b < post.len() implies seq_lt(
                #[trigger] self.keys()[a],
                #[trigger] self.keys()[b],
            ) by {
                assert(self.keys()[a] == post[a].0@);
                assert(self.keys()[b] == post[b].0@);
                if a < i && b < i {
                    assert(post[a].0@ == pre.map_values(|e: (String, V)| e.0@)[a]);
                    assert(post[b].0@ == pre.map_values(|e: (String, V)| e.0@)[b]);
                } else if a < i && b == i {
                    assert(post[a].0@ == pre.map_values(|e: (String, V)| e.0@)[a]);
                    assert(post[b].0@ == ki);
                } else if a < i && b > i {
                    assert(post[a].0@ == pre.map_values(|e: (String, V)| e.0@)[a]);
                    assert(post[b].0@ == pre.map_values(|e: (String, V)| e.0@)[b - 1]);
                    if a < i <= b - 1 {
                        if a == b - 1 {
                            assert(seq_lt(post[a].0@, ki));
                            lemma_seq_lt_trans(post[a].0@, ki, post[b].0@);
                        }
                    }
                } else if a == i {
                    assert(post[a].0@ == ki);
                    assert(post[b].0@ == pre.map_values(|e: (String, V)| e.0@)[b - 1]);
                } else {
                    assert(post[a].0@ == pre.map_values(|e: (String, V)| e.0@)[a - 1]);
                    assert(post[b].0@ == pre.map_values(|e: (String, V)| e.0@)[b - 1]);
                }
            }
        }
        true
    }
}

/// One produced artifact of a derivation.
#[derive(Debug)]
pub struct Output {
    pub path: String,
}

/// The set of named sub-outputs required from one referenced derivation. A
/// historically-always-empty dynamic-outputs field of the wire format carries
/// no meaning here and is not modelled.
#[derive(Debug)]
pub struct Input {
    pub outputs: Vec<String>,
}

/// One build derivation.
#[derive(Debug)]
pub struct Derivation {
    /// Content-addressed identifier: equal paths mean identical records.
    pub path: String,
    /// The arguments handed to the builder, in order.
    pub args: Vec<String>,
    pub builder: String,
    /// Environment of the build step, keyed by variable name.
    pub env: Dict<String>,
    /// Referenced derivations, keyed by their `path`.
    pub input_drvs: Dict<Input>,
    /// Raw sources consumed directly, not produced by another derivation.
    pub input_srcs: Vec<String>,
    /// Display name, also what referenced derivations are paired by.
    pub name: String,
    /// Keys are output names, e.g. `out`, `man`, `bin`, etc.
    pub outputs: Dict<Output>,
    /// Target platform identifier.
    pub system: String,
}

/// The keyed entries of an environment, by character content.
pub open spec fn env_view(d: &Dict<String>) -> Seq<(Seq<char>, Seq<char>)> {
    d.entries@.map_values(|e: (String, String)| (e.0@, e.1@))
}

/// The keyed entries of an output table, by character content.
pub open spec fn outputs_view(d: &Dict<Output>) -> Seq<(Seq<char>, Seq<char>)> {
    d.entries@.map_values(|e: (String, Output)| (e.0@, e.1.path@))
}

/// The keyed entries of a referenced-derivation table, by character content.
pub open spec fn input_drvs_view(d: &Dict<Input>) -> Seq<(Seq<char>, Seq<Seq<char>>)> {
    d.entries@.map_values(|e: (String, Input)| (e.0@, str_views(e.1.outputs@)))
}

impl Derivation {
    /// Every keyed field is strictly sorted.
    pub open spec fn wf(&self) -> bool {
        &&& self.env.wf()
        &&& self.input_drvs.wf()
        &&& self.outputs.wf()
        &&& forall|i: int|
            0 <= i < self.input_drvs.entries@.len() ==> strictly_sorted(
                str_views(#[trigger] self.input_drvs.entries@[i].1.outputs@),
            )
    }
}

/// Every field that the diff compares directly, without going through the
/// resolver, holds the same content in both derivations.
pub open spec fn direct_fields_match(a: &Derivation, b: &Derivation) -> bool {
    &&& a.builder@ == b.builder@
    &&& str_views(a.args@) == str_views(b.args@)
    &&& env_view(&a.env) == env_view(&b.env)
    &&& str_views(a.input_srcs@) == str_views(b.input_srcs@)
    &&& outputs_view(&a.outputs) == outputs_view(&b.outputs)
    &&& a.system@ == b.system@
}

/// Every compared field holds the same content, and the two reference the
/// same input derivations — everything but the `path` may still agree.
pub open spec fn matching_fields(a: &Derivation, b: &Derivation) -> bool {
    &&& direct_fields_match(a, b)
    &&& input_drvs_view(&a.input_drvs) == input_drvs_view(&b.input_drvs)
}

/// The derivations a diff run resolves referenced identifiers against, keyed
/// by their `path`.
pub struct Derivations(pub Dict<Derivation>);

/// The record a well-formed resolver holds under path `p`. Meaningful only
/// when the path is present; the strictly sorted keys make it unique.
pub open spec fn resolver_at(r: &Derivations, p: Seq<char>) -> Derivation {
    let i = choose|i: int| 0 <= i < r.0.entries@.len() && r.0.keys()[i] == p;
    r.0.entries@[i].1
}

/// Every path that `d` references is present in the resolver.
pub open spec fn all_inputs_resolvable(d: &Derivation, r: &Derivations) -> bool {
    forall|j: int|
        0 <= j < d.input_drvs.entries@.len() ==> r.contains_path(#[trigger] d.input_drvs.keys()[j])
}

/// Every referenced path of every held derivation is itself held.
pub open spec fn closed_resolver(r: &Derivations) -> bool {
    forall|i: int|
        0 <= i < r.0.entries@.len() ==> all_inputs_resolvable(&#[trigger] r.0.entries@[i].1, r)
}

impl Derivations {
    /// Sorted, and each entry holds a well-formed derivation under its own path.
    pub open spec fn wf(&self) -> bool {
        &&& self.0.wf()
        &&& forall|i: int|
            0 <= i < self.0.entries@.len() ==> (#[trigger] self.0.entries@[i].1.path@
                == self.0.entries@[i].0@ && self.0.entries@[i].1.wf())
    }

    pub open spec fn contains_path(&self, path: Seq<char>) -> bool {
        self.0.contains_key(path)
    }

    pub fn new() -> (d: Self)
        ensures
            d.wf(),
            d.0.entries@ =~= Seq::empty(),
    {
        Derivations(Dict::new())
    }

    /// Adds a derivation under its path. Reports `false`, changing nothing,
    /// if the path is already present.
    pub fn insert(&mut self, d: Derivation) -> (added: bool)
        requires
            old(self).wf(),
            d.wf(),
        ensures
            final(self).wf(),
            added == !old(self).contains_path(d.path@),
            final(self).contains_path(d.path@),
    {
        let ghost dv = d;
        let key = d.path.clone();
        let added = self.0.insert(key, d);
        proof {
            if added {
                let idx = choose|idx: int|
                    0 <= idx <= old(self).0.entries@.len() && self.0.entries@ == old(
                        self,
                    ).0.entries@.insert(idx, (dv.path, dv));
                assert(self.0.entries@[idx].1.path@ == self.0.entries@[idx].0@);
                assert forall|i: int| 0 <= i < self.0.entries@.len() implies (
                #[trigger] self.0.entries@[i].1.path@ == self.0.entries@[i].0@
                    && self.0.entries@[i].1.wf()) by {
                    if i < idx {
                        assert(self.0.entries@[i] == old(self).0.entries@[i]);
                    } else if i > idx {
                        assert(self.0.entries@[i] == old(self).0.entries@[i - 1]);
                    }
                }
                assert(self.0.keys()[idx] == dv.path@);
            }
        }
        added
    }

    /// Resolves a referenced path to its derivation record.
    pub fn get(&self, path: &str) -> (r: Option<&Derivation>)
        requires
            self.wf(),
        ensures
            match r {
                Some(d) => self.contains_path(path@) && d.path@ == path@ && d.wf() && *d
                    == resolver_at(self, path@),
                None => !self.contains_path(path@),
            },
    {
        let r = self.0.get(path);
        proof {
            match r {
                Some(d) => {
                    let i = choose|i: int|
                        0 <= i < self.0.entries@.len() && #[trigger] self.0.keys()[i] == path@
                            && *d == self.0.entries@[i].1;
                    assert(self.0.entries@[i].1.path@ == self.0.entries@[i].0@);
                    let j = choose|j: int|
                        0 <= j < self.0.entries@.len() && self.0.keys()[j] == path@;
                    if i != j {
                        lemma_sorted_distinct(self.0.keys(), i, j);
                    }
                    assert(*d == resolver_at(self, path@));
                },
                None => {},
            }
        }
        r
    }

    /// A held derivation sits in the resolver under its own path.
    pub proof fn lemma_member_at(&self, i: int)
        requires
            self.wf(),
            0 <= i < self.0.entries@.len(),
        ensures
            self.contains_path(self.0.entries@[i].1.path@),
            resolver_at(self, self.0.entries@[i].1.path@) == self.0.entries@[i].1,
    {
        assert(self.0.keys()[i] == self.0.entries@[i].1.path@);
        let j = choose|j: int|
            0 <= j < self.0.entries@.len() && self.0.keys()[j] == self.0.entries@[i].1.path@;
        if i != j {
            lemma_sorted_distinct(self.0.keys(), i, j);
        }
    }
}

} // verus!
