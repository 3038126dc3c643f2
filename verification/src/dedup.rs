//! Filename deduplication.
//!
//! A run holds the set of paths that are already spoken for — the files
//! present in the output directory when the run started, plus every path
//! the run has assigned so far.  A desired base path is probed as
//! `base`, `base (0)`, `base (1)`, ... in order, and the first candidate
//! not yet spoken for is assigned and recorded.  Because an assigned
//! path is never in the set at assignment time, no two assignments of a
//! run collide with each other, nor with a file that already existed.

use vstd::prelude::*;
use vstd::assert_by_contradiction;
use crate::digits::{
    decimal_digits, decimal_bytes, lemma_decimal_digits_nonempty, lemma_decimal_digits_injective,
};

verus! {

/// The probe suffix ` (i)`: space, `(`, decimal digits, `)`.
pub open spec fn probe_suffix(i: nat) -> Seq<u8> {
    seq![32u8, 40u8] + decimal_digits(i) + seq![41u8]
}

/// The `k`-th candidate path for `base`: `base` itself first, then
/// `base (0)`, `base (1)`, ...
pub open spec fn candidate(base: Seq<u8>, k: nat) -> Seq<u8> {
    if k == 0 {
        base
    } else {
        base + probe_suffix((k - 1) as nat)
    }
}

/// Distinct probe indices give distinct candidate paths.
pub proof fn lemma_candidate_injective(base: Seq<u8>, i: nat, j: nat)
    requires
        candidate(base, i) == candidate(base, j),
    ensures
        i == j,
{
    if i != j {
        if i == 0 {
            lemma_decimal_digits_nonempty((j - 1) as nat);
            assert(false);
        } else if j == 0 {
            lemma_decimal_digits_nonempty((i - 1) as nat);
            assert(false);
        } else {
            let a = (i - 1) as nat;
            let b = (j - 1) as nat;
            let s1 = probe_suffix(a);
            let s2 = probe_suffix(b);
            lemma_decimal_digits_nonempty(a);
            lemma_decimal_digits_nonempty(b);
            assert(s1 =~= (base + s1).subrange(base.len() as int, (base + s1).len() as int));
            assert(s2 =~= (base + s2).subrange(base.len() as int, (base + s2).len() as int));
            assert(decimal_digits(a) =~= s1.subrange(2, s1.len() - 1));
            assert(decimal_digits(b) =~= s2.subrange(2, s2.len() - 1));
            lemma_decimal_digits_injective(a, b);
            assert(false);
        }
    }
}

/// If the first `k` candidates for `base` are all spoken for, the set
/// holds at least `k` paths (the candidates are pairwise distinct).
pub proof fn lemma_probes_bounded(taken: Set<Seq<u8>>, base: Seq<u8>, k: nat)
    requires
        taken.finite(),
        forall|j: nat| j < k ==> taken.contains(#[trigger] candidate(base, j)),
    ensures
        k <= taken.len(),
    decreases k,
{
    if k > 0 {
        let last = candidate(base, (k - 1) as nat);
        assert(taken.contains(last));
        let rest = taken.remove(last);
        assert forall|j: nat| j < k - 1 implies rest.contains(#[trigger] candidate(base, j)) by {
            assert(taken.contains(candidate(base, j)));
            if candidate(base, j) == last {
                lemma_candidate_injective(base, j, (k - 1) as nat);
            }
        }
        lemma_probes_bounded(rest, base, (k - 1) as nat);
    }
}

/// A finite set cannot hold every candidate: some probe is free.
proof fn lemma_exists_free(taken: Set<Seq<u8>>, base: Seq<u8>)
    requires
        taken.finite(),
    ensures
        exists|k: nat| !taken.contains(#[trigger] candidate(base, k)),
{
    assert_by_contradiction!(exists|k: nat| !taken.contains(#[trigger] candidate(base, k)), {
        lemma_probes_bounded(taken, base, taken.len() + 1);
    });
}

/// `k` is the first probe index whose candidate for `base` is free.
pub open spec fn is_first_free(taken: Set<Seq<u8>>, base: Seq<u8>, k: nat) -> bool {
    &&& !taken.contains(candidate(base, k))
    &&& forall|j: nat| j < k ==> taken.contains(#[trigger] candidate(base, j))
}

/// The first free probe index for `base`.
pub open spec fn first_free(taken: Set<Seq<u8>>, base: Seq<u8>) -> nat {
    choose|k: nat| is_first_free(taken, base, k)
}

/// The path a run assigns for `base` when `taken` is spoken for.
pub open spec fn assigned_path(taken: Set<Seq<u8>>, base: Seq<u8>) -> Seq<u8> {
    candidate(base, first_free(taken, base))
}

pub proof fn lemma_first_free_unique(taken: Set<Seq<u8>>, base: Seq<u8>, k1: nat, k2: nat)
    requires
        is_first_free(taken, base, k1),
        is_first_free(taken, base, k2),
    ensures
        k1 == k2,
{
    if k1 < k2 {
        assert(taken.contains(candidate(base, k1)));
    }
    if k2 < k1 {
        assert(taken.contains(candidate(base, k2)));
    }
}

proof fn lemma_first_free_below(taken: Set<Seq<u8>>, base: Seq<u8>, n: nat)
    requires
        !taken.contains(candidate(base, n)),
    ensures
        exists|k: nat| is_first_free(taken, base, k),
    decreases n,
{
    if forall|j: nat| j < n ==> taken.contains(#[trigger] candidate(base, j)) {
        assert(is_first_free(taken, base, n));
    } else {
        let j = choose|j: nat| j < n && !taken.contains(#[trigger] candidate(base, j));
        lemma_first_free_below(taken, base, j);
    }
}

/// For a finite taken-set a first free probe index always exists, and
/// `first_free` denotes it.
pub proof fn lemma_first_free_exists(taken: Set<Seq<u8>>, base: Seq<u8>)
    requires
        taken.finite(),
    ensures
        is_first_free(taken, base, first_free(taken, base)),
{
    lemma_exists_free(taken, base);
    let n = choose|k: nat| !taken.contains(#[trigger] candidate(base, k));
    lemma_first_free_below(taken, base, n);
}

/// Builds the `k`-th candidate path for `base`.
pub fn candidate_bytes(base: &Vec<u8>, k: usize) -> (r: Vec<u8>)
    ensures
        r@ == candidate(base@, k as nat),
{
    let mut r = crate::names::copy_range(base, 0, base.len());
    assert(r@ =~= base@);
    if k == 0 {
        return r;
    }
    r.push(32);
    r.push(40);
    let d = decimal_bytes((k - 1) as u64);
    let mut j: usize = 0;
    while j < d.len()
        invariant
            j <= d.len(),
            d@ == decimal_digits((k - 1) as nat),
            r@ =~= base@ + seq![32u8, 40u8] + d@.subrange(0, j as int),
        decreases d.len() - j,
    {
        r.push(d[j]);
        j = j + 1;
        assert(r@ =~= base@ + seq![32u8, 40u8] + d@.subrange(0, j as int));
    }
    assert(d@.subrange(0, d@.len() as int) =~= d@);
    r.push(41);
    assert(r@ =~= candidate(base@, k as nat));
    r
}

/// Byte-string equality.
fn bytes_eq(a: &Vec<u8>, b: &Vec<u8>) -> (r: bool)
    ensures
        r == (a@ == b@),
{
    if a.len() != b.len() {
        return false;
    }
    let mut j: usize = 0;
    while j < a.len()
        invariant
            j <= a.len(),
            a.len() == b.len(),
            forall|i: int| 0 <= i < j ==> a@[i] == b@[i],
        decreases a.len() - j,
    {
        if a[j] != b[j] {
            return false;
        }
        j = j + 1;
    }
    proof {
        assert(a@ =~= b@);
    }
    true
}

/// Tracks which output paths are spoken for during one run and assigns
/// collision-free paths.
pub struct Deduplicator {
    taken: Vec<Vec<u8>>,
}

impl Deduplicator {
    /// The set of paths that are already spoken for.
    pub closed spec fn taken_set(self) -> Set<Seq<u8>> {
        self.taken@.map_values(|v: Vec<u8>| v@).to_set()
    }

    pub proof fn lemma_taken_finite(self)
        ensures
            self.taken_set().finite(),
    {
        vstd::seq_lib::seq_to_set_is_finite(self.taken@.map_values(|v: Vec<u8>| v@));
    }

    /// A fresh run: nothing is spoken for yet.
    pub fn new() -> (d: Deduplicator)
        ensures
            d.taken_set() == Set::<Seq<u8>>::empty(),
    {
        let d = Deduplicator { taken: Vec::new() };
        proof {
            assert(d.taken_set() =~= Set::<Seq<u8>>::empty());
        }
        d
    }

    /// Records a path that is already occupied (a file present in the
    /// output directory before the run).
    pub fn seed(&mut self, path: Vec<u8>)
        ensures
            final(self).taken_set() == old(self).taken_set().insert(path@),
    {
        let ghost m0 = self.taken@.map_values(|v: Vec<u8>| v@);
        proof {
            self.taken@.lemma_push_map_commute(|v: Vec<u8>| v@, path);
            m0.lemma_push_to_set_commute(path@);
        }
        self.taken.push(path);
        proof {
            assert(self.taken@.map_values(|v: Vec<u8>| v@) =~= m0.push(path@));
        }
    }

    /// Whether `p` is spoken for.
    fn contains_path(&self, p: &Vec<u8>) -> (r: bool)
        ensures
            r == self.taken_set().contains(p@),
    {
        let ghost m = self.taken@.map_values(|v: Vec<u8>| v@);
        let mut i: usize = 0;
        while i < self.taken.len()
            invariant
                i <= self.taken.len(),
                m == self.taken@.map_values(|v: Vec<u8>| v@),
                forall|j: int| 0 <= j < i ==> m[j] != p@,
            decreases self.taken.len() - i,
        {
            if bytes_eq(&self.taken[i], p) {
                proof {
                    assert(m[i as int] == p@);
                    assert(m.contains(p@));
                }
                return true;
            }
            i = i + 1;
        }
        proof {
            assert(!m.contains(p@));
        }
        false
    }

    /// Finds the first free probe index for `base`.
    fn probe(&self, base: &Vec<u8>) -> (k: usize)
        ensures
            is_first_free(self.taken_set(), base@, k as nat),
    {
        let mut k: usize = 0;
        loop
            invariant
                k <= self.taken.len(),
                forall|j: nat| j < k ==> self.taken_set().contains(#[trigger] candidate(base@, j)),
            decreases self.taken.len() - k,
        {
            let c = candidate_bytes(base, k);
            if !self.contains_path(&c) {
                return k;
            }
            proof {
                self.lemma_taken_finite();
                assert forall|j: nat| j < k + 1 implies self.taken_set().contains(
                    #[trigger] candidate(base@, j),
                ) by {
                    if j == k {
                        assert(self.taken_set().contains(c@));
                    }
                }
                lemma_probes_bounded(self.taken_set(), base@, (k + 1) as nat);
                self.taken@.map_values(|v: Vec<u8>| v@).lemma_cardinality_of_set();
            }
            k = k + 1;
        }
    }

    /// Assigns the first free candidate path for `base`, in probe order
    /// `base`, `base (0)`, `base (1)`, ..., and records it as spoken
    /// for.  The result never collides with a path that was spoken for
    /// before the call.
    pub fn assign(&mut self, base: &Vec<u8>) -> (r: Vec<u8>)
        ensures
            r@ == assigned_path(old(self).taken_set(), base@),
            !old(self).taken_set().contains(r@),
            final(self).taken_set() == old(self).taken_set().insert(r@),
    {
        let k = self.probe(base);
        let r = candidate_bytes(base, k);
        proof {
            self.lemma_taken_finite();
            lemma_first_free_exists(self.taken_set(), base@);
            lemma_first_free_unique(
                self.taken_set(),
                base@,
                k as nat,
                first_free(self.taken_set(), base@),
            );
        }
        let r2 = crate::names::copy_range(&r, 0, r.len());
        assert(r2@ =~= r@);
        self.seed(r2);
        r
    }
}

/// The paths a run assigns for the base names `bases`, in order,
/// starting from the taken-set `taken`.
pub open spec fn dedup_run(taken: Set<Seq<u8>>, bases: Seq<Seq<u8>>) -> Seq<Seq<u8>>
    decreases bases.len(),
{
    if bases.len() == 0 {
        Seq::empty()
    } else {
        let p = assigned_path(taken, bases.first());
        seq![p] + dedup_run(taken.insert(p), bases.drop_first())
    }
}

/// No path a run assigns was spoken for when the run started: files
/// that already exist — those of an earlier run included — are never
/// overwritten, whatever the base names are.
pub proof fn lemma_dedup_run_fresh(taken: Set<Seq<u8>>, bases: Seq<Seq<u8>>)
    requires
        taken.finite(),
    ensures
        dedup_run(taken, bases).len() == bases.len(),
        forall|i: int|
            0 <= i < bases.len() ==> !taken.contains(#[trigger] dedup_run(taken, bases)[i]),
    decreases bases.len(),
{
    if bases.len() > 0 {
        let b = bases.first();
        lemma_first_free_exists(taken, b);
        let p = assigned_path(taken, b);
        lemma_dedup_run_fresh(taken.insert(p), bases.drop_first());
        assert forall|i: int|
            0 <= i < bases.len() implies !taken.contains(
            #[trigger] dedup_run(taken, bases)[i],
        ) by {
            if i > 0 {
                assert(dedup_run(taken, bases)[i] == dedup_run(
                    taken.insert(p),
                    bases.drop_first(),
                )[i - 1]);
            }
        }
    }
}

/// No two assignments of one run collide: every pair of paths the run
/// assigns is distinct, whatever the base names are.
pub proof fn lemma_dedup_run_distinct(taken: Set<Seq<u8>>, bases: Seq<Seq<u8>>, i: int, j: int)
    requires
        taken.finite(),
        0 <= i < j < bases.len(),
    ensures
        dedup_run(taken, bases)[i] != dedup_run(taken, bases)[j],
    decreases bases.len(),
{
    let b = bases.first();
    lemma_first_free_exists(taken, b);
    let p = assigned_path(taken, b);
    let rest = dedup_run(taken.insert(p), bases.drop_first());
    if i == 0 {
        lemma_dedup_run_fresh(taken.insert(p), bases.drop_first());
        assert(!taken.insert(p).contains(rest[j - 1]));
        assert(dedup_run(taken, bases)[j] == rest[j - 1]);
    } else {
        lemma_dedup_run_fresh(taken.insert(p), bases.drop_first());
        lemma_dedup_run_distinct(taken.insert(p), bases.drop_first(), i - 1, j - 1);
        assert(dedup_run(taken, bases)[i] == rest[i - 1]);
        assert(dedup_run(taken, bases)[j] == rest[j - 1]);
    }
}

/// Colliding base names are resolved in probe order: when the first `m`
/// candidates for `b` are spoken for and no later one is, a run over
/// base names all equal to `b` assigns `candidate(b, m)`,
/// `candidate(b, m + 1)`, ... — for `m == 0`: `b`, `b (0)`, `b (1)`, ...
pub proof fn lemma_collision_probe_order(
    taken: Set<Seq<u8>>,
    b: Seq<u8>,
    bases: Seq<Seq<u8>>,
    m: nat,
    i: int,
)
    requires
        taken.finite(),
        forall|k: nat| k >= m ==> !taken.contains(#[trigger] candidate(b, k)),
        forall|k: nat| k < m ==> taken.contains(#[trigger] candidate(b, k)),
        forall|t: int| 0 <= t < bases.len() ==> bases[t] == b,
        0 <= i < bases.len(),
    ensures
        dedup_run(taken, bases)[i] == candidate(b, (m + i) as nat),
    decreases i,
{
    assert(is_first_free(taken, b, m));
    lemma_first_free_exists(taken, b);
    lemma_first_free_unique(taken, b, m, first_free(taken, b));
    let p = assigned_path(taken, b);
    assert(p == candidate(b, m));
    let t2 = taken.insert(p);
    assert forall|k: nat| k >= m + 1 implies !t2.contains(#[trigger] candidate(b, k)) by {
        if candidate(b, k) == p {
            lemma_candidate_injective(b, k, m);
        }
    }
    if i > 0 {
        lemma_dedup_run_fresh(t2, bases.drop_first());
        lemma_collision_probe_order(t2, b, bases.drop_first(), m + 1, i - 1);
        assert(dedup_run(taken, bases)[i] == dedup_run(t2, bases.drop_first())[i - 1]);
    }
}

} // verus!
