//! What was computed before, kept for the next time.
//!
//! Which indices go together depends on the width of the register and on
//! the qubits alone, and the matrix of a rotation on its three angles alone.
//! Both are kept in caches of the crate `cached`, and looked up before they
//! are computed anew.
use crate::complex::UMatrix;
use crate::ieee::{integer_decode, lemma_integer_decode_injective, spec_integer_decode};
use crate::rows::{exchangeable_rows, find_exchangeable_rows, find_target_rows, target_rows};
use cached::{Cached, SizedCache, UnboundCache};
use vstd::prelude::*;

verus! {

/// The mantissa, exponent and sign of a double-precision number.
pub type DecodedFloat = (u64, i16, i8);

/// The three angles of a rotation, each by mantissa, exponent and sign.
pub type BuildUKey = (DecodedFloat, DecodedFloat, DecodedFloat);

/// The number of matrices that are kept.
pub const MATRIX_CACHE_SIZE: usize = 20;

/// The cache without a bound of the crate `cached`.
#[verifier::external_type_specification]
#[verifier::external_body]
#[verifier::reject_recursive_types(K)]
#[verifier::reject_recursive_types(V)]
pub struct ExUnboundCache<K, V>(UnboundCache<K, V>);

/// The cache of the crate `cached` that holds up to a given number of
/// entries and lets the one go that was used least recently.
#[verifier::external_type_specification]
#[verifier::external_body]
#[verifier::reject_recursive_types(K)]
#[verifier::reject_recursive_types(V)]
pub struct ExSizedCache<K, V>(SizedCache<K, V>);

/// What a cache of rows holds: the rows kept under each key
/// (width, control, target).
pub uninterp spec fn row_entries(
    cache: UnboundCache<(usize, usize, usize), Vec<(usize, usize)>>,
) -> Map<(usize, usize, usize), Seq<(usize, usize)>>;

/// What a cache of matrices holds: the matrix kept under each key.
pub uninterp spec fn matrix_entries(cache: SizedCache<BuildUKey, UMatrix>) -> Map<
    BuildUKey,
    UMatrix,
>;

/// The number of entries that a cache of matrices was made for.
pub uninterp spec fn matrix_limit(cache: SizedCache<BuildUKey, UMatrix>) -> nat;

/// `UnboundCache::new`: a cache that holds nothing.
#[verifier::external_body]
fn new_row_cache() -> (made: UnboundCache<(usize, usize, usize), Vec<(usize, usize)>>)
    ensures
        forall|key: (usize, usize, usize)| !row_entries(made).contains_key(key),
{
    UnboundCache::new()
}

/// `Cached::cache_get` of `UnboundCache`: a copy of the rows kept under
/// `key`, or `None` where none are. What the cache holds stays. (The cache
/// also counts its hits and misses, each in a `u64`.)
#[verifier::external_body]
fn get_rows(
    cache: &mut UnboundCache<(usize, usize, usize), Vec<(usize, usize)>>,
    key: &(usize, usize, usize),
) -> (rows: Option<Vec<(usize, usize)>>)
    ensures
        row_entries(*final(cache)) == row_entries(*old(cache)),
        match rows {
            Some(kept) => row_entries(*old(cache)).contains_key(*key) && kept@ == row_entries(
                *old(cache),
            )[*key],
            None => !row_entries(*old(cache)).contains_key(*key),
        },
{
    cache.cache_get(key).cloned()
}

/// `Cached::cache_set` of `UnboundCache`: the cache holds `rows` under
/// `key`, and under every other key what it held.
#[verifier::external_body]
fn set_rows(
    cache: &mut UnboundCache<(usize, usize, usize), Vec<(usize, usize)>>,
    key: (usize, usize, usize),
    rows: Vec<(usize, usize)>,
)
    ensures
        row_entries(*final(cache)) == row_entries(*old(cache)).insert(key, rows@),
{
    cache.cache_set(key, rows);
}

/// `SizedCache::with_size`: a cache for up to `size` entries that holds
/// nothing. The size must not be zero.
#[verifier::external_body]
fn new_matrix_cache(size: usize) -> (made: SizedCache<BuildUKey, UMatrix>)
    requires
        size > 0,
    ensures
        forall|key: BuildUKey| !matrix_entries(made).contains_key(key),
        matrix_limit(made) == size,
{
    SizedCache::with_size(size)
}

/// `Cached::cache_get` of `SizedCache`: the matrix kept under `key`, or
/// `None` where none is. What the cache holds stays; the entry counts as
/// used. (The cache also counts its hits and misses, each in a `u64`.)
#[verifier::external_body]
fn get_matrix(cache: &mut SizedCache<BuildUKey, UMatrix>, key: &BuildUKey) -> (matrix: Option<
    UMatrix,
>)
    ensures
        matrix_entries(*final(cache)) == matrix_entries(*old(cache)),
        matrix_limit(*final(cache)) == matrix_limit(*old(cache)),
        match matrix {
            Some(kept) => matrix_entries(*old(cache)).contains_key(*key) && kept
                == matrix_entries(*old(cache))[*key],
            None => !matrix_entries(*old(cache)).contains_key(*key),
        },
{
    cache.cache_get(key).copied()
}

/// `Cached::cache_set` of `SizedCache`: the cache holds `matrix` under
/// `key`. Under every other key it holds what it held, or nothing any more:
/// where the cache would hold more entries than it was made for, the entry
/// used least recently leaves.
#[verifier::external_body]
fn set_matrix(cache: &mut SizedCache<BuildUKey, UMatrix>, key: BuildUKey, matrix: UMatrix)
    ensures
        matrix_limit(*final(cache)) == matrix_limit(*old(cache)),
        matrix_entries(*final(cache)).dom().finite(),
        matrix_entries(*final(cache)).dom().len() <= matrix_limit(*final(cache)),
        matrix_entries(*final(cache)).contains_key(key),
        matrix_entries(*final(cache))[key] == matrix,
        forall|other: BuildUKey|
            other != key && #[trigger] matrix_entries(*final(cache)).contains_key(other)
                ==> matrix_entries(*old(cache)).contains_key(other) && matrix_entries(
                *final(cache),
            )[other] == matrix_entries(*old(cache))[other],
{
    cache.cache_set(key, matrix);
}

/// A copy of the rows.
fn copy_rows(rows: &Vec<(usize, usize)>) -> (copy: Vec<(usize, usize)>)
    ensures
        copy@ == rows@,
{
    let mut copy: Vec<(usize, usize)> = Vec::with_capacity(rows.len());
    let mut n: usize = 0;
    while n < rows.len()
        invariant
            n <= rows@.len(),
            copy@ == rows@.take(n as int),
        decreases rows@.len() - n,
    {
        copy.push(rows[n]);
        assert(copy@ =~= rows@.take(n + 1));
        n += 1;
    }
    assert(copy@ =~= rows@);
    copy
}

/// The rows that belong under a key of the row cache: the exchangeable
/// rows where control and target differ, and the target rows where the key
/// names the target twice.
pub open spec fn rows_of(key: (usize, usize, usize)) -> Seq<(usize, usize)> {
    if key.1 == key.2 {
        target_rows(key.0 as nat, key.2 as nat)
    } else {
        exchangeable_rows(key.0 as nat, key.1 as nat, key.2 as nat)
    }
}

/// The pairings that were computed before.
#[derive(Debug)]
pub struct RowCache {
    rows: UnboundCache<(usize, usize, usize), Vec<(usize, usize)>>,
}

impl RowCache {
    /// Under every key the cache holds the pairings that belong to it.
    #[verifier::type_invariant]
    closed spec fn coherent(&self) -> bool {
        forall|key: (usize, usize, usize)| #[trigger]
            row_entries(self.rows).contains_key(key) ==> row_entries(self.rows)[key] == rows_of(
                key,
            )
    }

    /// The rows kept under each key (width, control, target); the target
    /// rows of a qubit are kept under the key that names it twice.
    pub closed spec fn entries(&self) -> Map<(usize, usize, usize), Seq<(usize, usize)>> {
        row_entries(self.rows)
    }

    /// A cache that holds no pairing yet.
    pub fn new() -> (r: Self)
        ensures
            r.entries() == Map::<(usize, usize, usize), Seq<(usize, usize)>>::empty(),
    {
        let cache = RowCache { rows: new_row_cache() };
        assert(cache.entries() =~= Map::<(usize, usize, usize), Seq<(usize, usize)>>::empty());
        cache
    }

    /// The rows that belong under `key`, from the cache where it holds
    /// them, and computed and kept where not.
    fn find_rows(&mut self, key: (usize, usize, usize)) -> (out: Vec<(usize, usize)>)
        requires
            key.0 < usize::BITS,
            key.1 < key.0,
            key.2 < key.0,
        ensures
            out@ == rows_of(key),
            final(self).entries() == old(self).entries().insert(key, out@),
    {
        proof {
            use_type_invariant(&*self);
        }
        let mut rows = new_row_cache();
        std::mem::swap(&mut rows, &mut self.rows);
        let ghost before = row_entries(rows);
        let out = match get_rows(&mut rows, &key) {
            Some(kept) => {
                assert(before =~= before.insert(key, kept@));
                kept
            },
            None => {
                let found = if key.1 == key.2 {
                    find_target_rows(key.0, key.2)
                } else {
                    find_exchangeable_rows(key.0, key.1, key.2)
                };
                set_rows(&mut rows, key, copy_rows(&found));
                found
            },
        };
        self.rows = rows;
        out
    }

    /// The pairs of indices that a controlled not with control `c` and
    /// target `t` exchanges, in a register of `qubit_width` qubits, from the
    /// cache where it holds them and computed where not.
    pub fn find_exchangeable_rows(&mut self, qubit_width: usize, c: usize, t: usize) -> (out: Vec<
        (usize, usize),
    >)
        requires
            qubit_width < usize::BITS,
            c < qubit_width,
            t < qubit_width,
            c != t,
        ensures
            out@ == exchangeable_rows(qubit_width as nat, c as nat, t as nat),
            final(self).entries() == old(self).entries().insert((qubit_width, c, t), out@),
    {
        self.find_rows((qubit_width, c, t))
    }

    /// The pairs of indices that a rotation of qubit `t` combines, in a
    /// register of `qubit_width` qubits, from the cache where it holds them
    /// and computed where not.
    pub fn find_target_rows(&mut self, qubit_width: usize, t: usize) -> (out: Vec<(usize, usize)>)
        requires
            t < qubit_width < usize::BITS,
        ensures
            out@ == target_rows(qubit_width as nat, t as nat),
            final(self).entries() == old(self).entries().insert((qubit_width, t, t), out@),
    {
        self.find_rows((qubit_width, t, t))
    }
}

/// The key under which the matrix of the rotation by three angles is kept:
/// each angle by mantissa, exponent and sign.
pub open spec fn spec_build_u_key(theta: u64, phi: u64, lambda: u64) -> BuildUKey {
    (spec_integer_decode(theta), spec_integer_decode(phi), spec_integer_decode(lambda))
}

/// The key under which the matrix of the rotation by three angles is kept.
#[verifier::when_used_as_spec(spec_build_u_key)]
pub fn build_u_key(theta: u64, phi: u64, lambda: u64) -> (key: BuildUKey)
    ensures
        key == spec_build_u_key(theta, phi, lambda),
{
    (integer_decode(theta), integer_decode(phi), integer_decode(lambda))
}

/// The matrices of the rotations that were built last.
#[derive(Debug)]
pub struct MatrixCache {
    matrices: SizedCache<BuildUKey, UMatrix>,
}

impl MatrixCache {
    /// The matrix kept under each key.
    pub closed spec fn entries(&self) -> Map<BuildUKey, UMatrix> {
        matrix_entries(self.matrices)
    }

    /// Whether every matrix that the cache holds is one that `build` makes
    /// of the angles it is kept under.
    pub open spec fn built_by<B: Fn(u64, u64, u64) -> UMatrix>(&self, build: B) -> bool {
        forall|theta: u64, phi: u64, lambda: u64|
            self.entries().contains_key(#[trigger] spec_build_u_key(theta, phi, lambda))
                ==> call_ensures(
                build,
                (theta, phi, lambda),
                self.entries()[spec_build_u_key(theta, phi, lambda)],
            )
    }

    /// The number of matrices that the cache was made for.
    pub closed spec fn limit(&self) -> nat {
        matrix_limit(self.matrices)
    }

    /// Whether the cache holds no more matrices than it was made for.
    pub open spec fn bounded(&self) -> bool {
        self.entries().dom().finite() && self.entries().dom().len() <= self.limit()
    }

    /// A cache that holds no matrix yet, made for `MATRIX_CACHE_SIZE`
    /// matrices.
    pub fn new() -> (r: Self)
        ensures
            r.entries() == Map::<BuildUKey, UMatrix>::empty(),
            r.limit() == MATRIX_CACHE_SIZE,
            r.bounded(),
    {
        let cache = MatrixCache { matrices: new_matrix_cache(MATRIX_CACHE_SIZE) };
        assert(cache.entries() =~= Map::<BuildUKey, UMatrix>::empty());
        cache
    }

    /// The matrix of the rotation by the three angles: from the cache
    /// where it holds one for these angles, and made by `build` and kept
    /// where not. Afterwards the cache holds the matrix under the key of
    /// the angles; what it holds under another key it held before. Where
    /// the cache is full, a matrix that was not asked for lately makes
    /// room.
    pub fn build_u<B: Fn(u64, u64, u64) -> UMatrix>(
        &mut self,
        theta: u64,
        phi: u64,
        lambda: u64,
        build: B,
    ) -> (matrix: UMatrix)
        requires
            old(self).built_by(build),
            call_requires(build, (theta, phi, lambda)),
        ensures
            call_ensures(build, (theta, phi, lambda), matrix),
            final(self).built_by(build),
            final(self).entries().contains_key(spec_build_u_key(theta, phi, lambda)),
            final(self).entries()[spec_build_u_key(theta, phi, lambda)] == matrix,
            old(self).entries().contains_key(spec_build_u_key(theta, phi, lambda)) ==> matrix
                == old(self).entries()[spec_build_u_key(theta, phi, lambda)] && final(self).entries() == old(self).entries(),
            forall|other: BuildUKey|
                other != spec_build_u_key(theta, phi, lambda) && #[trigger] final(self).entries().contains_key(other) ==> old(self).entries().contains_key(other)
                    && final(self).entries()[other] == old(self).entries()[other],
            final(self).limit() == old(self).limit(),
            old(self).bounded() ==> final(self).bounded(),
    {
        let key: BuildUKey = build_u_key(theta, phi, lambda);
        match get_matrix(&mut self.matrices, &key) {
            Some(kept) => kept,
            None => {
                let ghost before = self.entries();
                let matrix: UMatrix = build(theta, phi, lambda);
                set_matrix(&mut self.matrices, key, matrix);
                proof {
                    let after = self.entries();
                    assert forall|t: u64, p: u64, l: u64|
                        after.contains_key(
                            #[trigger] spec_build_u_key(t, p, l),
                        ) implies call_ensures(build, (t, p, l), after[spec_build_u_key(t, p, l)]) by {
                        if spec_build_u_key(t, p, l) == key {
                            lemma_integer_decode_injective(t, theta);
                            lemma_integer_decode_injective(p, phi);
                            lemma_integer_decode_injective(l, lambda);
                        } else {
                            assert(before.contains_key(spec_build_u_key(t, p, l)));
                        }
                    }
                }
                matrix
            },
        }
    }
}

} // verus!
