//! Permutation tables of gradient noise, built once and then shared
//! read-only by the textures that evaluate noise.
use vstd::prelude::*;
use rand::Rng;
use rand::rngs::SmallRng;

verus! {

/// Number of lattice points along each axis before the noise repeats.
pub const TABLE_SIZE: usize = 256;

/// rand's small, fast generator, carried through opaque to the draws below.
#[verifier::external_type_specification]
#[verifier::external_body]
pub struct ExSmallRng(SmallRng);

/// Relies on rand's `Rng::gen_range` over `0..n`: a value in that half-open
/// range, which must not be empty (it panics on an empty range).
#[verifier::external_body]
fn draw_below(rng: &mut SmallRng, n: usize) -> (r: usize)
    requires
        n > 0,
    ensures
        r < n,
{
    rng.gen_range(0..n)
}

/// `s` is a permutation of `0..256`: 256 distinct entries, each below 256.
pub open spec fn is_permutation(s: Seq<u8>) -> bool {
    &&& s.len() == TABLE_SIZE
    &&& forall|i: int, j: int| 0 <= i < j < s.len() ==> s[i] != s[j]
}

/// `s` with the entries at `i` and `j` exchanged.
pub open spec fn swapped(s: Seq<u8>, i: int, j: int) -> Seq<u8> {
    s.update(i, s[j]).update(j, s[i])
}

/// The identity table `0, 1, ..., 255`.
pub open spec fn identity_table() -> Seq<u8> {
    Seq::new(TABLE_SIZE as nat, |k: int| k as u8)
}

/// The table after the exchanges for positions `i` down to 1 have been
/// applied to `s`, position `p` being exchanged with `draws[p]`.
pub open spec fn shuffled(s: Seq<u8>, draws: Seq<usize>, i: int) -> Seq<u8>
    decreases i,
{
    if i <= 0 {
        s
    } else {
        shuffled(swapped(s, i, draws[i] as int), draws, i - 1)
    }
}

/// Draws for a shuffle: one per position, each below its position.
pub open spec fn draws_ok(draws: Seq<usize>) -> bool {
    &&& draws.len() == TABLE_SIZE
    &&& forall|p: int| 1 <= p < TABLE_SIZE ==> #[trigger] draws[p] < p
}

/// `s` is the identity table shuffled by some valid draws.
pub open spec fn is_shuffle(s: Seq<u8>) -> bool {
    exists|d: Seq<usize>| draws_ok(d) && s == shuffled(identity_table(), d, TABLE_SIZE - 1)
}

/// Starting from the identity, exchanges each position from the last down
/// to the second with the position `draws` gives for it.
pub fn shuffle(draws: &Vec<usize>) -> (r: Vec<u8>)
    requires
        draws_ok(draws@),
    ensures
        r@ == shuffled(identity_table(), draws@, TABLE_SIZE - 1),
        is_permutation(r@),
{
    let mut p: Vec<u8> = Vec::new();
    let mut i: usize = 0;
    while i < TABLE_SIZE
        invariant
            i <= TABLE_SIZE,
            p@.len() == i,
            forall|k: int| 0 <= k < i ==> p@[k] == k,
        decreases TABLE_SIZE - i,
    {
        p.push(i as u8);
        i = i + 1;
    }
    assert(p@ =~= identity_table());
    let mut i: usize = TABLE_SIZE - 1;
    while i > 0
        invariant
            i < TABLE_SIZE,
            draws_ok(draws@),
            is_permutation(p@),
            shuffled(p@, draws@, i as int) == shuffled(identity_table(), draws@, TABLE_SIZE - 1),
        decreases i,
    {
        let j = draws[i];
        assert(j < i);
        let a = p[i];
        let b = p[j];
        p.set(i, b);
        p.set(j, a);
        i = i - 1;
    }
    p
}

/// A random permutation of `0..256`: the shuffle of the identity with
/// positions drawn from `rng`, for the last position first.
pub fn generate_perm(rng: &mut SmallRng) -> (r: Vec<u8>)
    ensures
        is_permutation(r@),
        is_shuffle(r@),
{
    let mut draws: Vec<usize> = Vec::new();
    let mut k: usize = 0;
    while k < TABLE_SIZE
        invariant
            k <= TABLE_SIZE,
            draws@.len() == k,
            forall|p: int| 0 <= p < k ==> draws@[p] == 0,
        decreases TABLE_SIZE - k,
    {
        draws.push(0);
        k = k + 1;
    }
    let mut i: usize = TABLE_SIZE - 1;
    while i > 0
        invariant
            i < TABLE_SIZE,
            draws@.len() == TABLE_SIZE,
            forall|p: int| 1 <= p < TABLE_SIZE ==> #[trigger] draws@[p] < p,
        decreases i,
    {
        let j = draw_below(rng, i);
        draws.set(i, j);
        i = i - 1;
    }
    let r = shuffle(&draws);
    assert(draws_ok(draws@) && r@ == shuffled(identity_table(), draws@, TABLE_SIZE - 1));
    r
}

/// The three permutation tables of gradient noise, one per axis.
pub struct PerlinTables {
    pub perm_x: Vec<u8>,
    pub perm_y: Vec<u8>,
    pub perm_z: Vec<u8>,
}

/// The table index of lattice coordinate `c`: its low eight bits.
pub open spec fn wrap(c: i64) -> int {
    (c as int) % 256
}

impl PerlinTables {
    pub open spec fn wf(&self) -> bool {
        is_permutation(self.perm_x@) && is_permutation(self.perm_y@) && is_permutation(
            self.perm_z@,
        )
    }

    /// The index into the gradient table for lattice point `(i, j, k)`:
    /// the exclusive or of the three permuted coordinates.
    pub open spec fn hash_spec(&self, i: i64, j: i64, k: i64) -> int {
        (self.perm_x@[wrap(i)] ^ self.perm_y@[wrap(j)] ^ self.perm_z@[wrap(k)]) as int
    }

    /// Draws the three tables.
    pub fn new(rng: &mut SmallRng) -> (r: PerlinTables)
        ensures
            r.wf(),
            is_shuffle(r.perm_x@),
            is_shuffle(r.perm_y@),
            is_shuffle(r.perm_z@),
    {
        let perm_x = generate_perm(rng);
        let perm_y = generate_perm(rng);
        let perm_z = generate_perm(rng);
        PerlinTables { perm_x, perm_y, perm_z }
    }

    /// Hashes a lattice point to a gradient index below 256; the lattice
    /// repeats every 256 points along each axis.
    pub fn lattice_index(&self, i: i64, j: i64, k: i64) -> (r: usize)
        requires
            self.wf(),
        ensures
            r == self.hash_spec(i, j, k),
            r < TABLE_SIZE,
    {
        let x = self.perm_x[wrap_index(i)];
        let y = self.perm_y[wrap_index(j)];
        let z = self.perm_z[wrap_index(k)];
        (x ^ y ^ z) as usize
    }
}

/// The low eight bits of `c`, as a table index.
fn wrap_index(c: i64) -> (r: usize)
    ensures
        r == wrap(c),
        r < TABLE_SIZE,
{
    let m = c % 256;
    if m < 0 {
        (m + 256) as usize
    } else {
        m as usize
    }
}

} // verus!
