use vstd::prelude::*;

use std::collections::HashMap;
use crate::record::Pixel;

verus! {

broadcast use {vstd::std_specs::hash::group_hash_axioms, vstd::set::group_set_axioms};

// ---------------------------------------------------------------------------
// The digest -> label mapping, as mathematics
// ---------------------------------------------------------------------------

/// The (digest, label) pairs that a record sequence feeds the index builder,
/// in input order.
pub open spec fn entries_of(ps: Seq<Pixel>) -> Seq<(u64, Seq<char>)> {
    ps.map(|i: int, p: Pixel| (p.user_id, p.user_hash@))
}

/// Insert the entries into `m` left to right; a later label for the same
/// digest overwrites an earlier one (last write wins).
pub open spec fn fold_entries(m: Map<u64, Seq<char>>, es: Seq<(u64, Seq<char>)>) -> Map<
    u64,
    Seq<char>,
>
    decreases es.len(),
{
    if es.len() == 0 {
        m
    } else {
        fold_entries(m.insert(es[0].0, es[0].1), es.drop_first())
    }
}

/// The collisions that the same left-to-right insertion detects: one
/// `(new label, old label)` pair for every entry whose digest is already
/// mapped to a different label.
pub open spec fn collisions_of(m: Map<u64, Seq<char>>, es: Seq<(u64, Seq<char>)>) -> Seq<
    (Seq<char>, Seq<char>),
>
    decreases es.len(),
{
    if es.len() == 0 {
        Seq::empty()
    } else {
        let e = es[0];
        let rest = collisions_of(m.insert(e.0, e.1), es.drop_first());
        if m.contains_key(e.0) && m[e.0] != e.1 {
            seq![(e.1, m[e.0])] + rest
        } else {
            rest
        }
    }
}

/// The digests of `es` in first-occurrence order, skipping those in `seen`.
pub open spec fn first_keys(seen: Set<u64>, es: Seq<(u64, Seq<char>)>) -> Seq<u64>
    decreases es.len(),
{
    if es.len() == 0 {
        Seq::empty()
    } else {
        let e = es[0];
        if seen.contains(e.0) {
            first_keys(seen, es.drop_first())
        } else {
            seq![e.0] + first_keys(seen.insert(e.0), es.drop_first())
        }
    }
}

/// The label pairs of a collision report vector, as character sequences.
pub open spec fn pairs_view(s: Seq<(String, String)>) -> Seq<(Seq<char>, Seq<char>)> {
    s.map(|i: int, t: (String, String)| (t.0@, t.1@))
}

// ---------------------------------------------------------------------------
// The executable index
// ---------------------------------------------------------------------------

/// A digest -> label mapping together with its digests in first-insertion
/// order, so that walking it is deterministic.
pub struct UserIndex {
    map: HashMap<u64, String>,
    order: Vec<u64>,
}

impl View for UserIndex {
    type V = Map<u64, Seq<char>>;

    closed spec fn view(&self) -> Map<u64, Seq<char>> {
        self.map@.map_values(|s: String| s@)
    }
}

impl UserIndex {
    /// The digests in first-insertion order.
    pub closed spec fn key_order(self) -> Seq<u64> {
        self.order@
    }

    pub closed spec fn well_formed(self) -> bool {
        &&& self.order@.no_duplicates()
        &&& self.order@.to_set() == self.map@.dom()
    }

    /// The index's entries, digest paired with label, in first-insertion
    /// order of the digests.
    pub open spec fn ordered_entries(self) -> Seq<(u64, Seq<char>)> {
        self.key_order().map(|i: int, k: u64| (k, self@[k]))
    }

    proof fn lemma_view_dom(self)
        ensures
            self@.dom() == self.map@.dom(),
            self.well_formed() ==> self@.dom() == self.key_order().to_set(),
    {
        assert(self@.dom() =~= self.map@.dom());
    }

    pub fn new() -> (r: UserIndex)
        ensures
            r.well_formed(),
            r@ == Map::<u64, Seq<char>>::empty(),
            r.key_order() == Seq::<u64>::empty(),
    {
        let r = UserIndex { map: HashMap::new(), order: Vec::new() };
        proof {
            assert(r.order@.to_set() =~= r.map@.dom());
            assert(r@ =~= Map::<u64, Seq<char>>::empty());
        }
        r
    }

    /// Number of distinct digests in the index.
    pub fn len(&self) -> (n: usize)
        requires
            self.well_formed(),
        ensures
            n == self@.dom().len(),
    {
        proof {
            self.lemma_view_dom();
        }
        self.map.len()
    }

    /// The label recorded for a digest, if any.
    pub fn get(&self, digest_key: u64) -> (r: Option<&String>)
        ensures
            match r {
                Some(s) => self@.contains_key(digest_key) && s@ == self@[digest_key],
                None => !self@.contains_key(digest_key),
            },
    {
        self.map.get(&digest_key)
    }

    /// Record `label` for `digest_key`, last write winning. Returns the
    /// previously recorded label exactly when it differs from `label`:
    /// a detected collision, reported but never fatal.
    pub fn insert(&mut self, digest_key: u64, label: String) -> (r: Option<String>)
        requires
            old(self).well_formed(),
        ensures
            final(self).well_formed(),
            final(self)@ == old(self)@.insert(digest_key, label@),
            final(self).key_order() == (if old(self)@.contains_key(digest_key) {
                old(self).key_order()
            } else {
                old(self).key_order().push(digest_key)
            }),
            match r {
                Some(prev) => old(self)@.contains_key(digest_key) && prev@ == old(
                    self,
                )@[digest_key] && prev@ != label@,
                None => !old(self)@.contains_key(digest_key) || old(self)@[digest_key] == label@,
            },
    {
        proof {
            old(self).lemma_view_dom();
        }
        let prior: Option<String> = match self.map.get(&digest_key) {
            Some(s) => Some(s.clone()),
            None => None,
        };
        let differs: bool = match &prior {
            Some(s) => !s.eq(&label),
            None => false,
        };
        if prior.is_none() {
            self.order.push(digest_key);
        }
        self.map.insert(digest_key, label);
        proof {
            broadcast use vstd::seq_lib::lemma_seq_contains_after_push;

            if old(self)@.contains_key(digest_key) {
                assert(self.order@.to_set() =~= self.map@.dom());
            } else {
                assert(!old(self).order@.to_set().contains(digest_key));
                assert(self.order@ == old(self).order@.push(digest_key));
                assert forall|i: int, j: int|
                    0 <= i < j < self.order@.len() implies self.order@[i] != self.order@[j] by {
                    if j < old(self).order@.len() {
                        assert(old(self).order@[i] != old(self).order@[j]);
                    } else {
                        assert(old(self).order@.contains(old(self).order@[i]));
                    }
                }
                assert(self.order@.no_duplicates());
                assert(self.order@.to_set() =~= self.map@.dom());
            }
            assert(self@ =~= old(self)@.insert(digest_key, label@));
        }
        if differs {
            prior
        } else {
            None
        }
    }
}

// ---------------------------------------------------------------------------
// Building one shard's index
// ---------------------------------------------------------------------------

/// Build one shard's digest -> label index from its records, in input
/// order, collecting a `(new label, old label)` report for every
/// within-shard collision. Last write wins; nothing fails.
pub fn build_index(pixels: &Vec<Pixel>) -> (r: (UserIndex, Vec<(String, String)>))
    ensures
        r.0.well_formed(),
        r.0@ == fold_entries(Map::<u64, Seq<char>>::empty(), entries_of(pixels@)),
        pairs_view(r.1@) == collisions_of(Map::<u64, Seq<char>>::empty(), entries_of(pixels@)),
        r.0.key_order() == first_keys(Set::<u64>::empty(), entries_of(pixels@)),
{
    let mut idx = UserIndex::new();
    let mut reports: Vec<(String, String)> = Vec::new();
    let ghost es = entries_of(pixels@);
    let mut k: usize = 0;
    proof {
        assert(es.skip(0) =~= es);
        assert(pairs_view(reports@) =~= Seq::<(Seq<char>, Seq<char>)>::empty());
        assert(pairs_view(reports@) + collisions_of(idx@, es) =~= collisions_of(idx@, es));
        assert(idx@.dom() =~= Set::<u64>::empty());
        assert(idx.key_order() + first_keys(idx@.dom(), es) =~= first_keys(idx@.dom(), es));
    }
    while k < pixels.len()
        invariant
            k <= pixels@.len(),
            es == entries_of(pixels@),
            es.len() == pixels@.len(),
            idx.well_formed(),
            fold_entries(Map::<u64, Seq<char>>::empty(), es) == fold_entries(idx@, es.skip(k as int)),
            collisions_of(Map::<u64, Seq<char>>::empty(), es) =~= pairs_view(reports@)
                + collisions_of(idx@, es.skip(k as int)),
            first_keys(Set::<u64>::empty(), es) == idx.key_order() + first_keys(
                idx@.dom(),
                es.skip(k as int),
            ),
        decreases pixels@.len() - k,
    {
        proof {
            assert(es.skip(k as int)[0] == es[k as int]);
            assert(es.skip(k as int).drop_first() =~= es.skip(k + 1));
            idx.lemma_view_dom();
        }
        let p: &Pixel = &pixels[k];
        let label = p.user_hash.clone();
        let ghost pre = idx@;
        let rep = idx.insert(p.user_id, label);
        match rep {
            Some(prev) => {
                let newlab = p.user_hash.clone();
                let ghost reports_pre = reports@;
                reports.push((newlab, prev));
                proof {
                    assert(pairs_view(reports@) =~= pairs_view(reports_pre) + seq![
                        (p.user_hash@, prev@),
                    ]);
                    assert(collisions_of(pre, es.skip(k as int)) == seq![(p.user_hash@, prev@)]
                        + collisions_of(pre.insert(es[k as int].0, es[k as int].1), es.skip(k + 1)));
                }
            },
            None => {
                proof {
                    assert(collisions_of(pre, es.skip(k as int)) == collisions_of(
                        pre.insert(es[k as int].0, es[k as int].1),
                        es.skip(k + 1),
                    ));
                }
            },
        }
        k = k + 1;
    }
    proof {
        assert(es.skip(pixels@.len() as int) =~= Seq::<(u64, Seq<char>)>::empty());
        assert(pairs_view(reports@) =~= pairs_view(reports@) + collisions_of(
            idx@,
            es.skip(pixels@.len() as int),
        ));
        idx.lemma_view_dom();
        assert(first_keys(idx@.dom(), es.skip(pixels@.len() as int)) == Seq::<u64>::empty());
        assert(idx.key_order() =~= idx.key_order() + Seq::<u64>::empty());
    }
    (idx, reports)
}

// ---------------------------------------------------------------------------
// Merging shard indexes
// ---------------------------------------------------------------------------

impl UserIndex {
    /// Fold `other`'s entries into `self`, walking `other` in its
    /// first-insertion order, with the same last-write-wins and
    /// report-on-mismatch policy as the per-shard build.
    pub fn merge(&mut self, other: &UserIndex) -> (reports: Vec<(String, String)>)
        requires
            old(self).well_formed(),
            other.well_formed(),
        ensures
            final(self).well_formed(),
            final(self)@ == fold_entries(old(self)@, other.ordered_entries()),
            pairs_view(reports@) == collisions_of(old(self)@, other.ordered_entries()),
            final(self).key_order() == old(self).key_order() + first_keys(
                old(self)@.dom(),
                other.ordered_entries(),
            ),
    {
        let ghost es = other.ordered_entries();
        let mut reports: Vec<(String, String)> = Vec::new();
        let mut k: usize = 0;
        proof {
            other.lemma_view_dom();
            self.lemma_view_dom();
            assert(es.skip(0) =~= es);
            assert(pairs_view(reports@) =~= Seq::<(Seq<char>, Seq<char>)>::empty());
            assert(pairs_view(reports@) + collisions_of(self@, es) =~= collisions_of(self@, es));
        }
        while k < other.order.len()
            invariant
                k <= other.order@.len(),
                other.well_formed(),
                es == other.ordered_entries(),
                es.len() == other.order@.len(),
                self.well_formed(),
                fold_entries(old(self)@, es) == fold_entries(self@, es.skip(k as int)),
                collisions_of(old(self)@, es) =~= pairs_view(reports@) + collisions_of(
                    self@,
                    es.skip(k as int),
                ),
                old(self).key_order() + first_keys(old(self)@.dom(), es) == self.key_order()
                    + first_keys(self@.dom(), es.skip(k as int)),
            decreases other.order@.len() - k,
        {
            proof {
                assert(es.skip(k as int)[0] == es[k as int]);
                assert(es.skip(k as int).drop_first() =~= es.skip(k + 1));
                assert(other.order@.to_set().contains(other.order@[k as int]));
                other.lemma_view_dom();
            }
            let key = other.order[k];
            let labref = match other.get(key) {
                Some(s) => s,
                None => unreached(),
            };
            let label = labref.clone();
            let newlab = labref.clone();
            let ghost pre = self@;
            let rep = self.insert(key, label);
            proof {
                assert(self@.dom() =~= pre.dom().insert(key));
                if pre.contains_key(key) {
                    assert(pre.dom().insert(key) =~= pre.dom());
                    assert(first_keys(pre.dom(), es.skip(k as int)) == first_keys(
                        self@.dom(),
                        es.skip(k + 1),
                    ));
                } else {
                    assert(first_keys(pre.dom(), es.skip(k as int)) == seq![key] + first_keys(
                        pre.dom().insert(key),
                        es.skip(k + 1),
                    ));
                    assert(self.key_order() + first_keys(self@.dom(), es.skip(k + 1)) =~= old(
                        self,
                    ).key_order() + first_keys(old(self)@.dom(), es));
                }
            }
            match rep {
                Some(prev) => {
                    let ghost reports_pre = reports@;
                    reports.push((newlab, prev));
                    proof {
                        assert(pairs_view(reports@) =~= pairs_view(reports_pre) + seq![
                            (es[k as int].1, prev@),
                        ]);
                        assert(collisions_of(pre, es.skip(k as int)) == seq![
                            (es[k as int].1, prev@),
                        ] + collisions_of(
                            pre.insert(es[k as int].0, es[k as int].1),
                            es.skip(k + 1),
                        ));
                    }
                },
                None => {
                    proof {
                        assert(collisions_of(pre, es.skip(k as int)) == collisions_of(
                            pre.insert(es[k as int].0, es[k as int].1),
                            es.skip(k + 1),
                        ));
                    }
                },
            }
            k = k + 1;
        }
        proof {
            assert(es.skip(es.len() as int) =~= Seq::<(u64, Seq<char>)>::empty());
            assert(pairs_view(reports@) =~= pairs_view(reports@) + collisions_of(
                self@,
                es.skip(es.len() as int),
            ));
        }
        reports
    }
}

/// What folding each index of `xs`, in order, into `m` yields.
pub open spec fn fold_indexes(m: Map<u64, Seq<char>>, xs: Seq<UserIndex>) -> Map<u64, Seq<char>>
    decreases xs.len(),
{
    if xs.len() == 0 {
        m
    } else {
        fold_indexes(fold_entries(m, xs[0].ordered_entries()), xs.drop_first())
    }
}

/// The collision reports of that same fold, in order.
pub open spec fn collisions_indexes(m: Map<u64, Seq<char>>, xs: Seq<UserIndex>) -> Seq<
    (Seq<char>, Seq<char>),
>
    decreases xs.len(),
{
    if xs.len() == 0 {
        Seq::empty()
    } else {
        collisions_of(m, xs[0].ordered_entries()) + collisions_indexes(
            fold_entries(m, xs[0].ordered_entries()),
            xs.drop_first(),
        )
    }
}

/// Fold all per-shard indexes, in shard order, into one global index,
/// concatenating the cross-shard collision reports in detection order.
/// The global mapping's size is the number of distinct participants.
pub fn merge_all(parts: &Vec<UserIndex>) -> (r: (UserIndex, Vec<(String, String)>))
    requires
        forall|i: int| 0 <= i < parts@.len() ==> (#[trigger] parts@[i]).well_formed(),
    ensures
        r.0.well_formed(),
        r.0@ == fold_indexes(Map::<u64, Seq<char>>::empty(), parts@),
        pairs_view(r.1@) == collisions_indexes(Map::<u64, Seq<char>>::empty(), parts@),
{
    let mut global = UserIndex::new();
    let mut reports: Vec<(String, String)> = Vec::new();
    let mut k: usize = 0;
    proof {
        assert(parts@.skip(0) =~= parts@);
        assert(pairs_view(reports@) =~= Seq::<(Seq<char>, Seq<char>)>::empty());
        assert(pairs_view(reports@) + collisions_indexes(global@, parts@) =~= collisions_indexes(
            global@,
            parts@,
        ));
    }
    while k < parts.len()
        invariant
            k <= parts@.len(),
            forall|i: int| 0 <= i < parts@.len() ==> (#[trigger] parts@[i]).well_formed(),
            global.well_formed(),
            fold_indexes(Map::<u64, Seq<char>>::empty(), parts@) == fold_indexes(
                global@,
                parts@.skip(k as int),
            ),
            collisions_indexes(Map::<u64, Seq<char>>::empty(), parts@) =~= pairs_view(reports@)
                + collisions_indexes(global@, parts@.skip(k as int)),
        decreases parts@.len() - k,
    {
        proof {
            assert(parts@.skip(k as int)[0] == parts@[k as int]);
            assert(parts@.skip(k as int).drop_first() =~= parts@.skip(k + 1));
        }
        let ghost pre = global@;
        let mut rs = global.merge(&parts[k]);
        let ghost rs_snap = rs@;
        let ghost reports_pre = reports@;
        reports.append(&mut rs);
        proof {
            assert(pairs_view(reports@) =~= pairs_view(reports_pre) + pairs_view(rs_snap));
        }
        k = k + 1;
    }
    proof {
        assert(parts@.skip(parts@.len() as int) =~= Seq::<UserIndex>::empty());
        assert(pairs_view(reports@) =~= pairs_view(reports@) + collisions_indexes(
            global@,
            parts@.skip(parts@.len() as int),
        ));
    }
    (global, reports)
}

// ---------------------------------------------------------------------------
// Laws of the merge
// ---------------------------------------------------------------------------

/// The digests of an entry list, in order.
pub open spec fn keys_of(es: Seq<(u64, Seq<char>)>) -> Seq<u64> {
    es.map(|i: int, e: (u64, Seq<char>)| e.0)
}

proof fn lemma_keys_drop_first(es: Seq<(u64, Seq<char>)>)
    requires
        es.len() > 0,
    ensures
        keys_of(es.drop_first()) =~= keys_of(es).drop_first(),
        keys_of(es).no_duplicates() ==> keys_of(es.drop_first()).no_duplicates(),
        keys_of(es).no_duplicates() ==> !keys_of(es.drop_first()).contains(es[0].0),
{
    assert(keys_of(es.drop_first()) =~= keys_of(es).drop_first());
    if keys_of(es).no_duplicates() {
        if keys_of(es).drop_first().contains(es[0].0) {
            let i = choose|i: int|
                0 <= i < keys_of(es).drop_first().len() && keys_of(es).drop_first()[i] == es[0].0;
            assert(keys_of(es)[i + 1] == keys_of(es)[0]);
        }
    }
}

/// Folding entries never touches a digest that is not among them.
pub proof fn lemma_fold_frame(m: Map<u64, Seq<char>>, es: Seq<(u64, Seq<char>)>, k: u64)
    requires
        !keys_of(es).contains(k),
    ensures
        fold_entries(m, es).contains_key(k) == m.contains_key(k),
        m.contains_key(k) ==> fold_entries(m, es)[k] == m[k],
    decreases es.len(),
{
    if es.len() > 0 {
        assert(keys_of(es)[0] == es[0].0);
        lemma_keys_drop_first(es);
        assert(!keys_of(es.drop_first()).contains(k)) by {
            if keys_of(es.drop_first()).contains(k) {
                let i = choose|i: int|
                    0 <= i < keys_of(es.drop_first()).len() && keys_of(es.drop_first())[i] == k;
                assert(keys_of(es)[i + 1] == k);
            }
        }
        lemma_fold_frame(m.insert(es[0].0, es[0].1), es.drop_first(), k);
    }
}

/// When the digests are pairwise distinct, every entry survives the fold
/// with exactly its own label.
pub proof fn lemma_fold_hit(m: Map<u64, Seq<char>>, es: Seq<(u64, Seq<char>)>, i: int)
    requires
        keys_of(es).no_duplicates(),
        0 <= i < es.len(),
    ensures
        fold_entries(m, es).contains_key(es[i].0),
        fold_entries(m, es)[es[i].0] == es[i].1,
    decreases es.len(),
{
    lemma_keys_drop_first(es);
    if i == 0 {
        lemma_fold_frame(m.insert(es[0].0, es[0].1), es.drop_first(), es[0].0);
    } else {
        assert(es.drop_first()[i - 1] == es[i]);
        lemma_fold_hit(m.insert(es[0].0, es[0].1), es.drop_first(), i - 1);
    }
}

/// The fold's domain is the base domain plus the entries' digests.
pub proof fn lemma_fold_dom(m: Map<u64, Seq<char>>, es: Seq<(u64, Seq<char>)>)
    ensures
        fold_entries(m, es).dom() =~= m.dom().union(keys_of(es).to_set()),
    decreases es.len(),
{
    if es.len() == 0 {
        assert(keys_of(es).to_set() =~= Set::<u64>::empty());
    } else {
        lemma_keys_drop_first(es);
        lemma_fold_dom(m.insert(es[0].0, es[0].1), es.drop_first());
        assert(keys_of(es).to_set() =~= keys_of(es.drop_first()).to_set().insert(es[0].0)) by {
            assert forall|k: u64| keys_of(es).contains(k) implies keys_of(
                es.drop_first(),
            ).to_set().insert(es[0].0).contains(k) by {
                let i = choose|i: int| 0 <= i < keys_of(es).len() && keys_of(es)[i] == k;
                if i > 0 {
                    assert(keys_of(es.drop_first())[i - 1] == k);
                }
            }
            assert forall|k: u64|
                keys_of(es.drop_first()).to_set().insert(es[0].0).contains(k) implies keys_of(
                es,
            ).contains(k) by {
                if keys_of(es.drop_first()).contains(k) {
                    let i = choose|i: int|
                        0 <= i < keys_of(es.drop_first()).len() && keys_of(es.drop_first())[i] == k;
                    assert(keys_of(es)[i + 1] == k);
                } else {
                    assert(keys_of(es)[0] == k);
                }
            }
        }
    }
}

/// Merging entries whose digests are fresh and pairwise distinct adds
/// exactly their number to the mapping's size and reports no collision,
/// whatever mapping they land on.
pub proof fn lemma_merge_disjoint(m: Map<u64, Seq<char>>, es: Seq<(u64, Seq<char>)>)
    requires
        m.dom().finite(),
        keys_of(es).no_duplicates(),
        forall|i: int| 0 <= i < es.len() ==> !m.contains_key(#[trigger] es[i].0),
    ensures
        fold_entries(m, es).dom().finite(),
        fold_entries(m, es).dom().len() == m.dom().len() + es.len(),
        collisions_of(m, es) =~= Seq::<(Seq<char>, Seq<char>)>::empty(),
    decreases es.len(),
{
    if es.len() > 0 {
        lemma_keys_drop_first(es);
        let m2 = m.insert(es[0].0, es[0].1);
        assert(m2.dom() =~= m.dom().insert(es[0].0));
        assert forall|i: int|
            0 <= i < es.drop_first().len() implies !m2.contains_key(
            #[trigger] es.drop_first()[i].0,
        ) by {
            assert(es.drop_first()[i] == es[i + 1]);
            assert(keys_of(es)[i + 1] == es[i + 1].0);
            assert(keys_of(es)[0] == es[0].0);
            assert(es[i + 1].0 != es[0].0);
            assert(!m.contains_key(es[i + 1].0));
        }
        lemma_merge_disjoint(m2, es.drop_first());
    }
}

/// With pairwise distinct digests across two entry lists, the merge order
/// of the lists does not matter: either way every digest carries the same
/// label.
pub proof fn lemma_merge_commutes(
    m: Map<u64, Seq<char>>,
    a: Seq<(u64, Seq<char>)>,
    b: Seq<(u64, Seq<char>)>,
)
    requires
        keys_of(a).no_duplicates(),
        keys_of(b).no_duplicates(),
        forall|i: int, j: int|
            0 <= i < a.len() && 0 <= j < b.len() ==> (#[trigger] a[i].0) != (#[trigger] b[j].0),
    ensures
        fold_entries(fold_entries(m, a), b) =~= fold_entries(fold_entries(m, b), a),
{
    let lhs = fold_entries(fold_entries(m, a), b);
    let rhs = fold_entries(fold_entries(m, b), a);
    assert forall|k: u64| #[trigger] lhs.contains_key(k) == rhs.contains_key(k) by {
        lemma_merge_commutes_at(m, a, b, k);
    }
    assert forall|k: u64| lhs.contains_key(k) implies #[trigger] lhs[k] == rhs[k] by {
        lemma_merge_commutes_at(m, a, b, k);
    }
    assert(lhs.dom() =~= rhs.dom());
}

proof fn lemma_merge_commutes_at(
    m: Map<u64, Seq<char>>,
    a: Seq<(u64, Seq<char>)>,
    b: Seq<(u64, Seq<char>)>,
    k: u64,
)
    requires
        keys_of(a).no_duplicates(),
        keys_of(b).no_duplicates(),
        forall|i: int, j: int|
            0 <= i < a.len() && 0 <= j < b.len() ==> (#[trigger] a[i].0) != (#[trigger] b[j].0),
    ensures
        fold_entries(fold_entries(m, a), b).contains_key(k) == fold_entries(
            fold_entries(m, b),
            a,
        ).contains_key(k),
        fold_entries(fold_entries(m, a), b).contains_key(k) ==> fold_entries(
            fold_entries(m, a),
            b,
        )[k] == fold_entries(fold_entries(m, b), a)[k],
{
    {
        if keys_of(a).contains(k) {
            let i = choose|i: int| 0 <= i < keys_of(a).len() && keys_of(a)[i] == k;
            assert(a[i].0 == k);
            assert(!keys_of(b).contains(k)) by {
                if keys_of(b).contains(k) {
                    let j = choose|j: int| 0 <= j < keys_of(b).len() && keys_of(b)[j] == k;
                    assert(a[i].0 != b[j].0);
                }
            }
            lemma_fold_frame(fold_entries(m, a), b, k);
            lemma_fold_hit(m, a, i);
            lemma_fold_hit(fold_entries(m, b), a, i);
        } else if keys_of(b).contains(k) {
            let j = choose|j: int| 0 <= j < keys_of(b).len() && keys_of(b)[j] == k;
            assert(b[j].0 == k);
            lemma_fold_frame(fold_entries(m, b), a, k);
            lemma_fold_hit(m, b, j);
            lemma_fold_hit(fold_entries(m, a), b, j);
        } else {
            lemma_fold_frame(m, a, k);
            lemma_fold_frame(m, b, k);
            lemma_fold_frame(fold_entries(m, a), b, k);
            lemma_fold_frame(fold_entries(m, b), a, k);
        }
    }
}

} // verus!
