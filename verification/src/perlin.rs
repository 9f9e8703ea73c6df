//! The permutation lattice of a gradient-noise generator: three shuffled
//! tables of `0..POINT_COUNT` and the hash that picks a gradient for each
//! corner of a lattice cell.

use rand::Rng;
use vstd::prelude::*;

verus! {

/// Number of lattice gradients, and length of each permutation table.
pub const POINT_COUNT: usize = 256;

/// `s` with the entries at `i` and `j` exchanged.
pub open spec fn swapped(s: Seq<usize>, i: int, j: int) -> Seq<usize> {
    s.update(i, s[j]).update(j, s[i])
}

/// Draws that a shuffle of the first `n` entries can use: one for each
/// position from `n - 1` down to `1`, each strictly below its position.
pub open spec fn valid_draws(n: int, draws: Seq<usize>) -> bool {
    &&& draws.len() == (if n >= 1 { n - 1 } else { 0 })
    &&& forall|k: int| 0 <= k < draws.len() ==> (#[trigger] draws[k] as int) < n - 1 - k
}

/// The table after the first `k` draws: draw number `k` (counting from one)
/// exchanges position `n - k` with the position drawn for it.
pub open spec fn after_draws(s: Seq<usize>, n: int, draws: Seq<usize>, k: int) -> Seq<usize>
    decreases k,
{
    if k <= 0 {
        s
    } else {
        swapped(after_draws(s, n, draws, k - 1), n - k, draws[k - 1] as int)
    }
}

/// The table after every draw has been applied.
pub open spec fn shuffled(s: Seq<usize>, n: int, draws: Seq<usize>) -> Seq<usize> {
    after_draws(s, n, draws, draws.len() as int)
}

/// The table that holds each index at its own position.
pub open spec fn identity_table(n: int) -> Seq<usize> {
    Seq::new(n as nat, |i: int| i as usize)
}

/// All entries lie below `POINT_COUNT`.
pub open spec fn in_lattice(s: Seq<usize>) -> bool {
    forall|i: int| 0 <= i < s.len() ==> (#[trigger] s[i]) < POINT_COUNT
}

/// No value occurs at two positions.
pub open spec fn distinct(s: Seq<usize>) -> bool {
    forall|i: int, j: int| 0 <= i < j < s.len() ==> s[i] != s[j]
}

/// `s` is a rearrangement of `0..POINT_COUNT`.
pub open spec fn is_permutation(s: Seq<usize>) -> bool {
    &&& s.len() == POINT_COUNT
    &&& in_lattice(s)
    &&& distinct(s)
}

/// A lattice coordinate wrapped onto the table.
pub open spec fn wrap(i: int) -> int {
    i % (POINT_COUNT as int)
}

/// Exchanging two entries keeps the length, the multiset of entries, their
/// range and their distinctness.
pub proof fn lemma_swapped(s: Seq<usize>, i: int, j: int)
    requires
        0 <= i < s.len(),
        0 <= j < s.len(),
    ensures
        swapped(s, i, j).len() == s.len(),
        swapped(s, i, j).to_multiset() == s.to_multiset(),
        in_lattice(s) ==> in_lattice(swapped(s, i, j)),
        distinct(s) ==> distinct(swapped(s, i, j)),
        forall|k: int| 0 <= k < s.len() && k != i && k != j ==> swapped(s, i, j)[k] == s[k],
{
    broadcast use vstd::seq_lib::to_multiset_update, vstd::seq_lib::to_multiset_contains;

    let t = s.update(i, s[j]);
    assert(s.contains(s[i]) && s.contains(s[j]));
    assert(t[j] == s[j]);
    assert(t.to_multiset() =~= s.to_multiset().insert(s[j]).remove(s[i]));
    assert(swapped(s, i, j).to_multiset() =~= t.to_multiset().insert(s[i]).remove(t[j]));
    assert(swapped(s, i, j).to_multiset() =~= s.to_multiset());
}

/// Applying fewer draws than there are does not look at the later ones.
pub proof fn lemma_after_draws_prefix(s: Seq<usize>, n: int, draws: Seq<usize>, x: usize, k: int)
    requires
        0 <= k <= draws.len(),
    ensures
        after_draws(s, n, draws.push(x), k) == after_draws(s, n, draws, k),
    decreases k,
{
    if k > 0 {
        lemma_after_draws_prefix(s, n, draws, x, k - 1);
        assert(draws.push(x)[k - 1] == draws[k - 1]);
    }
}

/// A shuffle is a rearrangement: it keeps the length and the multiset of
/// entries, leaves everything from position `n` on where it was, and keeps
/// range and distinctness of the entries.
pub proof fn lemma_after_draws(s: Seq<usize>, n: int, draws: Seq<usize>, k: int)
    requires
        0 <= n <= s.len(),
        valid_draws(n, draws),
        0 <= k <= draws.len(),
    ensures
        after_draws(s, n, draws, k).len() == s.len(),
        after_draws(s, n, draws, k).to_multiset() == s.to_multiset(),
        in_lattice(s) ==> in_lattice(after_draws(s, n, draws, k)),
        distinct(s) ==> distinct(after_draws(s, n, draws, k)),
        forall|i: int| n <= i < s.len() ==> after_draws(s, n, draws, k)[i] == s[i],
    decreases k,
{
    if k > 0 {
        lemma_after_draws(s, n, draws, k - 1);
        let prev = after_draws(s, n, draws, k - 1);
        assert((draws[k - 1] as int) < n - 1 - (k - 1));
        lemma_swapped(prev, n - k, draws[k - 1] as int);
    }
}

/// Shuffling a permutation table yields a permutation table.
pub proof fn lemma_shuffled_permutation(s: Seq<usize>, draws: Seq<usize>)
    requires
        is_permutation(s),
        valid_draws(POINT_COUNT as int, draws),
    ensures
        is_permutation(shuffled(s, POINT_COUNT as int, draws)),
        shuffled(s, POINT_COUNT as int, draws).to_multiset() == s.to_multiset(),
{
    lemma_after_draws(s, POINT_COUNT as int, draws, draws.len() as int);
}

/// The first draw settles the last position for good: it receives the
/// entry that stood at the drawn position.
pub proof fn lemma_last_entry(s: Seq<usize>, n: int, draws: Seq<usize>, k: int)
    requires
        2 <= n <= s.len(),
        valid_draws(n, draws),
        1 <= k <= draws.len(),
    ensures
        after_draws(s, n, draws, k)[n - 1] == s[draws[0] as int],
    decreases k,
{
    if k > 1 {
        lemma_last_entry(s, n, draws, k - 1);
        lemma_after_draws(s, n, draws, k - 1);
        assert((draws[k - 1] as int) < n - 1 - (k - 1));
    } else {
        assert((draws[0] as int) < n - 1 - 0);
        assert(after_draws(s, n, draws, 0) == s);
    }
}

/// An index below `high` from the calling thread's generator, by
/// `rand::Rng::gen_range(0, high)` on `rand::thread_rng()`. Trusted: the
/// value lies in `0..high`. Nothing is claimed about which value it is.
#[verifier::external_body]
fn random_below(high: usize) -> (r: usize)
    requires
        high > 0,
    ensures
        r < high,
{
    rand::thread_rng().gen_range(0, high)
}

/// Exchanges two entries of a table.
pub fn swap_entries(p: &mut Vec<usize>, i: usize, j: usize)
    requires
        i < old(p).len(),
        j < old(p).len(),
    ensures
        final(p)@ == swapped(old(p)@, i as int, j as int),
{
    let a = p[i];
    let b = p[j];
    p.set(i, b);
    p.set(j, a);
}

/// Whether `draws` can drive a shuffle of the first `n` entries.
pub fn check_draws(n: usize, draws: &Vec<usize>) -> (ok: bool)
    ensures
        ok == valid_draws(n as int, draws@),
{
    let want: usize = if n >= 1 {
        n - 1
    } else {
        0
    };
    if draws.len() != want {
        return false;
    }
    let mut k: usize = 0;
    while k < draws.len()
        invariant
            draws.len() == want,
            want == (if n >= 1 { n - 1 } else { 0 }),
            k <= draws.len(),
            forall|m: int| 0 <= m < k ==> (#[trigger] draws@[m] as int) < n - 1 - m,
        decreases draws.len() - k,
    {
        if draws[k] >= n - 1 - k {
            assert(!((draws@[k as int] as int) < n - 1 - k));
            return false;
        }
        k += 1;
    }
    true
}

/// Shuffles the first `n` entries of `p` with the given draws, walking from
/// position `n - 1` down to `1` and exchanging each position with the one
/// drawn for it. Draws that are not valid for `n` leave `p` untouched and
/// are reported by `false`.
pub fn permute_with(p: &mut Vec<usize>, n: usize, draws: &Vec<usize>) -> (ok: bool)
    requires
        n <= old(p).len(),
    ensures
        ok == valid_draws(n as int, draws@),
        ok ==> final(p)@ == shuffled(old(p)@, n as int, draws@),
        !ok ==> final(p)@ == old(p)@,
{
    if !check_draws(n, draws) {
        return false;
    }
    let mut k: usize = 0;
    while k < draws.len()
        invariant
            n <= old(p).len(),
            valid_draws(n as int, draws@),
            k <= draws.len(),
            p@ == after_draws(old(p)@, n as int, draws@, k as int),
        decreases draws.len() - k,
    {
        proof {
            lemma_after_draws(old(p)@, n as int, draws@, k as int);
            assert((draws@[k as int] as int) < n - 1 - k);
        }
        swap_entries(p, n - 1 - k, draws[k]);
        k += 1;
    }
    true
}

/// Shuffles the first `n` entries of `p` in place with draws from the
/// calling thread's generator. Whatever is drawn, the outcome is the shuffle
/// that some valid sequence of draws describes.
pub fn permute(p: &mut Vec<usize>, n: usize)
    requires
        n <= old(p).len(),
    ensures
        exists|draws: Seq<usize>|
            valid_draws(n as int, draws) && final(p)@ == #[trigger] shuffled(
                old(p)@,
                n as int,
                draws,
            ),
        final(p)@.len() == old(p)@.len(),
        final(p)@.to_multiset() == old(p)@.to_multiset(),
        forall|i: int| n <= i < old(p)@.len() ==> final(p)@[i] == old(p)@[i],
{
    let ghost mut draws: Seq<usize> = Seq::empty();
    if n >= 2 {
        let mut i: usize = n - 1;
        while i >= 1
            invariant
                2 <= n <= old(p).len(),
                0 <= i <= n - 1,
                draws.len() == n - 1 - i,
                forall|k: int| 0 <= k < draws.len() ==> (#[trigger] draws[k] as int) < n - 1 - k,
                p@.len() == old(p)@.len(),
                p@ == after_draws(old(p)@, n as int, draws, draws.len() as int),
            decreases i,
        {
            let target = random_below(i);
            proof {
                let ghost next = draws.push(target);
                lemma_after_draws_prefix(old(p)@, n as int, draws, target, draws.len() as int);
                assert(next[next.len() - 1] == target);
                draws = next;
            }
            swap_entries(p, i, target);
            i -= 1;
        }
    }
    proof {
        assert(valid_draws(n as int, draws));
        lemma_after_draws(old(p)@, n as int, draws, draws.len() as int);
        assert(p@ == shuffled(old(p)@, n as int, draws));
    }
}

/// `s` is what some valid run of draws makes of the identity table.
pub open spec fn is_shuffled_identity(s: Seq<usize>) -> bool {
    exists|draws: Seq<usize>|
        valid_draws(POINT_COUNT as int, draws) && s == #[trigger] shuffled(
            identity_table(POINT_COUNT as int),
            POINT_COUNT as int,
            draws,
        )
}

/// The table that holds each index below `POINT_COUNT` at its own position.
pub fn identity_perm() -> (p: Vec<usize>)
    ensures
        p@ == identity_table(POINT_COUNT as int),
        is_permutation(p@),
{
    let mut p: Vec<usize> = Vec::new();
    let mut i: usize = 0;
    while i < POINT_COUNT
        invariant
            i <= POINT_COUNT,
            p@.len() == i,
            forall|k: int| 0 <= k < i ==> p@[k] == k,
        decreases POINT_COUNT - i,
    {
        p.push(i);
        i += 1;
    }
    assert(p@ =~= identity_table(POINT_COUNT as int));
    p
}

/// A fresh permutation table: the identity table, shuffled.
pub fn perlin_generate_perm() -> (p: Vec<usize>)
    ensures
        is_permutation(p@),
        is_shuffled_identity(p@),
{
    let mut p = identity_perm();
    permute(&mut p, POINT_COUNT);
    proof {
        let draws = choose|draws: Seq<usize>|
            valid_draws(POINT_COUNT as int, draws) && p@ == #[trigger] shuffled(
                identity_table(POINT_COUNT as int),
                POINT_COUNT as int,
                draws,
            );
        lemma_shuffled_permutation(identity_table(POINT_COUNT as int), draws);
    }
    p
}

/// The permutation table that the given draws make of the identity table,
/// if they are valid draws for a table of `POINT_COUNT` entries. The same
/// draws always give the same table.
pub fn perm_from_draws(draws: &Vec<usize>) -> (table: Option<Vec<usize>>)
    ensures
        table.is_some() <==> valid_draws(POINT_COUNT as int, draws@),
        table matches Some(p) ==> p@ == shuffled(
            identity_table(POINT_COUNT as int),
            POINT_COUNT as int,
            draws@,
        ) && is_permutation(p@) && is_shuffled_identity(p@),
{
    let mut p = identity_perm();
    if permute_with(&mut p, POINT_COUNT, draws) {
        proof {
            lemma_shuffled_permutation(identity_table(POINT_COUNT as int), draws@);
        }
        Some(p)
    } else {
        None
    }
}

/// Whether `p` is a rearrangement of `0..POINT_COUNT`.
pub fn check_permutation(p: &Vec<usize>) -> (ok: bool)
    ensures
        ok == is_permutation(p@),
{
    if p.len() != POINT_COUNT {
        return false;
    }
    let mut seen: Vec<bool> = Vec::new();
    let mut v: usize = 0;
    while v < POINT_COUNT
        invariant
            v <= POINT_COUNT,
            seen@.len() == v,
            forall|x: int| 0 <= x < v ==> !seen@[x],
        decreases POINT_COUNT - v,
    {
        seen.push(false);
        v += 1;
    }
    let mut i: usize = 0;
    while i < POINT_COUNT
        invariant
            p@.len() == POINT_COUNT,
            seen@.len() == POINT_COUNT,
            i <= POINT_COUNT,
            forall|k: int| 0 <= k < i ==> (#[trigger] p@[k]) < POINT_COUNT,
            forall|k: int, m: int| 0 <= k < m < i ==> p@[k] != p@[m],
            forall|x: int|
                0 <= x < POINT_COUNT ==> (#[trigger] seen@[x] <==> exists|k: int|
                    0 <= k < i && p@[k] == x),
        decreases POINT_COUNT - i,
    {
        let value = p[i];
        if value >= POINT_COUNT {
            return false;
        }
        if seen[value] {
            let ghost k = choose|k: int| 0 <= k < i && p@[k] == value;
            assert(p@[k] == p@[i as int]);
            return false;
        }
        seen.set(value, true);
        assert forall|x: int| 0 <= x < POINT_COUNT implies (#[trigger] seen@[x] <==> exists|k: int|
            0 <= k < i + 1 && p@[k] == x) by {
            if x == value {
                assert(p@[i as int] == x);
            } else if seen@[x] {
                let k = choose|k: int| 0 <= k < i && p@[k] == x;
                assert(0 <= k < i + 1 && p@[k] == x);
            }
        }
        i += 1;
    }
    true
}

/// The gradient slot that the lattice point `(i, j, k)` hashes to: the
/// three table entries at the wrapped coordinates, combined by exclusive or.
pub open spec fn lattice_hash(
    perm_x: Seq<usize>,
    perm_y: Seq<usize>,
    perm_z: Seq<usize>,
    i: int,
    j: int,
    k: int,
) -> usize {
    perm_x[wrap(i)] ^ perm_y[wrap(j)] ^ perm_z[wrap(k)]
}

/// The exclusive or of three lattice values is a lattice value.
pub proof fn lemma_hash_in_lattice(a: usize, b: usize, c: usize)
    requires
        a < POINT_COUNT,
        b < POINT_COUNT,
        c < POINT_COUNT,
    ensures
        (a ^ b ^ c) < POINT_COUNT,
{
    assert((a ^ b ^ c) < 256) by (bit_vector)
        requires
            a < 256,
            b < 256,
            c < 256,
    ;
}

/// The three permutation tables of one noise generator, fixed at construction.
pub struct Perlin {
    perm_x: Vec<usize>,
    perm_y: Vec<usize>,
    perm_z: Vec<usize>,
}

impl Perlin {
    /// The table that hashes the first coordinate.
    pub closed spec fn spec_perm_x(&self) -> Seq<usize> {
        self.perm_x@
    }

    /// The table that hashes the second coordinate.
    pub closed spec fn spec_perm_y(&self) -> Seq<usize> {
        self.perm_y@
    }

    /// The table that hashes the third coordinate.
    pub closed spec fn spec_perm_z(&self) -> Seq<usize> {
        self.perm_z@
    }

    /// Each table is a rearrangement of `0..POINT_COUNT`.
    pub open spec fn wf(&self) -> bool {
        &&& is_permutation(self.spec_perm_x())
        &&& is_permutation(self.spec_perm_y())
        &&& is_permutation(self.spec_perm_z())
    }

    /// The gradient slot of the lattice point `(i, j, k)`.
    pub open spec fn spec_gradient_index(&self, i: int, j: int, k: int) -> usize {
        lattice_hash(self.spec_perm_x(), self.spec_perm_y(), self.spec_perm_z(), i, j, k)
    }

    /// A generator with three independently shuffled tables: each is the
    /// identity table after some valid run of draws.
    pub fn new() -> (noise: Self)
        ensures
            noise.wf(),
            is_shuffled_identity(noise.spec_perm_x()),
            is_shuffled_identity(noise.spec_perm_y()),
            is_shuffled_identity(noise.spec_perm_z()),
    {
        Perlin {
            perm_x: perlin_generate_perm(),
            perm_y: perlin_generate_perm(),
            perm_z: perlin_generate_perm(),
        }
    }

    /// A generator whose tables are what the three runs of draws make of
    /// the identity table, if each run is valid. This is `new` with the
    /// draws handed in: the same draws always give the same generator.
    pub fn from_draws(draws_x: &Vec<usize>, draws_y: &Vec<usize>, draws_z: &Vec<usize>) -> (noise:
        Option<Self>)
        ensures
            noise.is_some() <==> valid_draws(POINT_COUNT as int, draws_x@) && valid_draws(
                POINT_COUNT as int,
                draws_y@,
            ) && valid_draws(POINT_COUNT as int, draws_z@),
            noise matches Some(n) ==> {
                &&& n.wf()
                &&& n.spec_perm_x() == shuffled(
                    identity_table(POINT_COUNT as int),
                    POINT_COUNT as int,
                    draws_x@,
                )
                &&& n.spec_perm_y() == shuffled(
                    identity_table(POINT_COUNT as int),
                    POINT_COUNT as int,
                    draws_y@,
                )
                &&& n.spec_perm_z() == shuffled(
                    identity_table(POINT_COUNT as int),
                    POINT_COUNT as int,
                    draws_z@,
                )
            },
    {
        let perm_x = match perm_from_draws(draws_x) {
            Some(p) => p,
            None => {
                return None;
            },
        };
        let perm_y = match perm_from_draws(draws_y) {
            Some(p) => p,
            None => {
                return None;
            },
        };
        let perm_z = match perm_from_draws(draws_z) {
            Some(p) => p,
            None => {
                return None;
            },
        };
        Some(Perlin { perm_x, perm_y, perm_z })
    }

    /// A generator over the given tables, if each of them is a
    /// rearrangement of `0..POINT_COUNT`.
    pub fn from_tables(perm_x: Vec<usize>, perm_y: Vec<usize>, perm_z: Vec<usize>) -> (noise:
        Option<Self>)
        ensures
            noise.is_some() <==> is_permutation(perm_x@) && is_permutation(perm_y@)
                && is_permutation(perm_z@),
            noise matches Some(n) ==> n.wf() && n.spec_perm_x() == perm_x@ && n.spec_perm_y()
                == perm_y@ && n.spec_perm_z() == perm_z@,
    {
        if check_permutation(&perm_x) && check_permutation(&perm_y) && check_permutation(&perm_z) {
            Some(Perlin { perm_x, perm_y, perm_z })
        } else {
            None
        }
    }

    /// The table that hashes the first coordinate.
    pub fn perm_x(&self) -> (table: &Vec<usize>)
        ensures
            table@ == self.spec_perm_x(),
    {
        &self.perm_x
    }

    /// The table that hashes the second coordinate.
    pub fn perm_y(&self) -> (table: &Vec<usize>)
        ensures
            table@ == self.spec_perm_y(),
    {
        &self.perm_y
    }

    /// The table that hashes the third coordinate.
    pub fn perm_z(&self) -> (table: &Vec<usize>)
        ensures
            table@ == self.spec_perm_z(),
    {
        &self.perm_z
    }

    /// The gradient slot of the lattice point `(i, j, k)`; always a valid slot.
    pub fn gradient_index(&self, i: usize, j: usize, k: usize) -> (slot: usize)
        requires
            self.wf(),
        ensures
            slot == self.spec_gradient_index(i as int, j as int, k as int),
            slot < POINT_COUNT,
    {
        let a = self.perm_x[i % POINT_COUNT];
        let b = self.perm_y[j % POINT_COUNT];
        let c = self.perm_z[k % POINT_COUNT];
        proof {
            lemma_hash_in_lattice(a, b, c);
        }
        a ^ b ^ c
    }

    /// The gradient slots of the eight corners of the lattice cell whose
    /// lowest corner is `(i, j, k)`. The corner offset `(di, dj, dk)`, each
    /// zero or one, stands at position `4 * di + 2 * dj + dk`; coordinates
    /// wrap around the table.
    pub fn corner_indices(&self, i: usize, j: usize, k: usize) -> (slots: Vec<usize>)
        requires
            self.wf(),
        ensures
            slots@.len() == 8,
            forall|di: int, dj: int, dk: int|
                0 <= di < 2 && 0 <= dj < 2 && 0 <= dk < 2 ==> #[trigger] slots@[4 * di + 2 * dj
                    + dk] == self.spec_gradient_index(i + di, j + dj, k + dk),
            forall|c: int| 0 <= c < 8 ==> (#[trigger] slots@[c]) < POINT_COUNT,
    {
        let i0 = i % POINT_COUNT;
        let j0 = j % POINT_COUNT;
        let k0 = k % POINT_COUNT;
        let mut slots: Vec<usize> = Vec::new();
        let mut c: usize = 0;
        while c < 8
            invariant
                self.wf(),
                c <= 8,
                i0 == wrap(i as int),
                j0 == wrap(j as int),
                k0 == wrap(k as int),
                slots@.len() == c,
                forall|m: int|
                    0 <= m < c ==> #[trigger] slots@[m] == self.spec_gradient_index(
                        i + m / 4,
                        j + (m / 2) % 2,
                        k + m % 2,
                    ),
                forall|m: int| 0 <= m < c ==> (#[trigger] slots@[m]) < POINT_COUNT,
            decreases 8 - c,
        {
            let di = c / 4;
            let dj = (c / 2) % 2;
            let dk = c % 2;
            let slot = self.gradient_index(i0 + di, j0 + dj, k0 + dk);
            assert(wrap(i0 + di) == wrap(i + di) && wrap(j0 + dj) == wrap(j + dj) && wrap(k0 + dk)
                == wrap(k + dk)) by {
                lemma_wrap_add(i as int, di as int);
                lemma_wrap_add(j as int, dj as int);
                lemma_wrap_add(k as int, dk as int);
            }
            slots.push(slot);
            c += 1;
        }
        assert forall|di: int, dj: int, dk: int|
            0 <= di < 2 && 0 <= dj < 2 && 0 <= dk < 2 implies #[trigger] slots@[4 * di + 2 * dj
            + dk] == self.spec_gradient_index(i + di, j + dj, k + dk) by {
            let m = 4 * di + 2 * dj + dk;
            assert(m / 4 == di && (m / 2) % 2 == dj && m % 2 == dk);
        }
        slots
    }
}

/// Wrapping a coordinate before stepping to a neighbour reaches the same
/// table entry as wrapping afterwards.
pub proof fn lemma_wrap_add(i: int, d: int)
    requires
        0 <= i,
        0 <= d,
    ensures
        wrap(wrap(i) + d) == wrap(i + d),
{
    assert((i % 256 + d) % 256 == (i + d) % 256) by (nonlinear_arith)
        requires
            0 <= i,
            0 <= d,
    ;
}

} // verus!
