//! Axial/cube coordinates on a hexagonal grid.
//!
//! A `Cube` stores the `q` and `r` axes; the third axis is `s = -q - r`.

use vstd::prelude::*;

verus! {

/// A hexagon position in cube coordinates; the third coordinate is implied.
#[derive(Clone, Copy, PartialEq, Eq, Hash, Default, Debug, Structural)]
pub struct Cube<T>(pub T, pub T);

impl<T: Copy> Cube<T> {
    /// The cube with the given `q` and `r` coordinates.
    pub fn new(q: T, r: T) -> (c: Self)
        ensures
            c.0 == q,
            c.1 == r,
    {
        Cube(q, r)
    }

    /// The `q` coordinate.
    pub fn q(&self) -> (v: T)
        ensures
            v == self.0,
    {
        self.0
    }

    /// The `r` coordinate.
    pub fn r(&self) -> (v: T)
        ensures
            v == self.1,
    {
        self.1
    }
}

/// The implied third coordinate of a cube.
pub open spec fn spec_s(c: Cube<i32>) -> int {
    -c.0 - c.1
}

/// Offset that makes an `i32` coordinate non-negative.
pub open spec fn key_offset() -> int {
    0x8000_0000
}

/// Number of distinct `i32` values; the factor between the two key halves.
pub open spec fn key_base() -> int {
    0x1_0000_0000
}

/// The integer key under which a cube is stored in hash tables.
pub open spec fn key_of(c: Cube<i32>) -> u64 {
    ((c.0 + key_offset()) * key_base() + (c.1 + key_offset())) as u64
}

/// The cube stored under the key `k`.
pub open spec fn cube_of_key(k: u64) -> Cube<i32> {
    Cube((k / 0x1_0000_0000 - key_offset()) as i32, (k % 0x1_0000_0000 - key_offset()) as i32)
}

/// Every key is the key of exactly one cube, `cube_of_key` of it.
pub proof fn lemma_cube_of_key(c: Cube<i32>, k: u64)
    ensures
        key_of(c) == k <==> c == cube_of_key(k),
{
    let x = c.0 + key_offset();
    let y = c.1 + key_offset();
    assert(0 <= x * key_base() + y < 0x1_0000_0000_0000_0000) by (nonlinear_arith)
        requires
            0 <= x < 0x1_0000_0000,
            0 <= y < 0x1_0000_0000,
    ;
    if key_of(c) == k {
        assert(k / 0x1_0000_0000 == x && k % 0x1_0000_0000 == y) by (nonlinear_arith)
            requires
                k == x * 0x1_0000_0000 + y,
                0 <= y < 0x1_0000_0000,
        ;
    }
    if c == cube_of_key(k) {
        let kx = k / 0x1_0000_0000;
        let ky = k % 0x1_0000_0000;
        assert(kx < 0x1_0000_0000 && kx * 0x1_0000_0000 + ky == k) by (nonlinear_arith)
            requires
                kx == k / 0x1_0000_0000,
                ky == k % 0x1_0000_0000,
        ;
    }
}

/// Distinct cubes have distinct keys.
pub proof fn lemma_key_injective(a: Cube<i32>, b: Cube<i32>)
    ensures
        key_of(a) == key_of(b) <==> a == b,
{
    let xa = a.0 + key_offset();
    let ya = a.1 + key_offset();
    let xb = b.0 + key_offset();
    let yb = b.1 + key_offset();
    assert(0 <= ya < key_base() && 0 <= yb < key_base());
    assert(0 <= xa * key_base() + ya < 0x1_0000_0000_0000_0000) by (nonlinear_arith)
        requires
            0 <= xa < 0x1_0000_0000,
            0 <= ya < 0x1_0000_0000,
    ;
    assert(0 <= xb * key_base() + yb < 0x1_0000_0000_0000_0000) by (nonlinear_arith)
        requires
            0 <= xb < 0x1_0000_0000,
            0 <= yb < 0x1_0000_0000,
    ;
    if xa * key_base() + ya == xb * key_base() + yb {
        assert(xa == xb && ya == yb) by (nonlinear_arith)
            requires
                xa * 0x1_0000_0000 + ya == xb * 0x1_0000_0000 + yb,
                0 <= ya < 0x1_0000_0000,
                0 <= yb < 0x1_0000_0000,
        ;
    }
}

impl Cube<i32> {
    /// The key of this cube in the world's tables.
    pub fn key(&self) -> (k: u64)
        ensures
            k == key_of(*self),
    {
        let x: u64 = (self.0 as i64 + 0x8000_0000) as u64;
        let y: u64 = (self.1 as i64 + 0x8000_0000) as u64;
        assert(x * 0x1_0000_0000 + y <= 0xffff_ffff_ffff_ffff) by (nonlinear_arith)
            requires
                x < 0x1_0000_0000,
                y < 0x1_0000_0000,
        ;
        x * 0x1_0000_0000 + y
    }

    /// The cube stored under a key.
    pub fn from_key(k: u64) -> (c: Cube<i32>)
        ensures
            key_of(c) == k,
            c == cube_of_key(k),
    {
        let x: u64 = k / 0x1_0000_0000;
        let y: u64 = k % 0x1_0000_0000;
        assert(x < 0x1_0000_0000) by (nonlinear_arith)
            requires
                x == k / 0x1_0000_0000,
        ;
        let q: i32 = (x as i64 - 0x8000_0000) as i32;
        let r: i32 = (y as i64 - 0x8000_0000) as i32;
        assert(x * 0x1_0000_0000 + y == k) by (nonlinear_arith)
            requires
                x == k / 0x1_0000_0000,
                y == k % 0x1_0000_0000,
        ;
        proof {
            lemma_cube_of_key(Cube(q, r), k);
        }
        Cube(q, r)
    }
}


/// The `i`-th of the six unit directions, clockwise starting from `(1, -1)`.
pub open spec fn spec_direction(i: int) -> Cube<i32> {
    if i == 0 {
        Cube(1i32, -1i32)
    } else if i == 1 {
        Cube(1i32, 0i32)
    } else if i == 2 {
        Cube(0i32, 1i32)
    } else if i == 3 {
        Cube(-1i32, 1i32)
    } else if i == 4 {
        Cube(-1i32, 0i32)
    } else {
        Cube(0i32, -1i32)
    }
}

/// The six unit directions of the grid.
pub fn directions() -> (d: [Cube<i32>; 6])
    ensures
        forall|i: int| 0 <= i < 6 ==> #[trigger] d@[i] == spec_direction(i),
{
    [Cube(1, -1), Cube(1, 0), Cube(0, 1), Cube(-1, 1), Cube(-1, 0), Cube(0, -1)]
}

/// The six unit directions in the opposite rotational order.
pub fn rev_directions() -> (d: [Cube<i32>; 6])
    ensures
        forall|i: int| 0 <= i < 6 ==> #[trigger] d@[i] == spec_direction(5 - i),
{
    [Cube(0, -1), Cube(-1, 0), Cube(-1, 1), Cube(0, 1), Cube(1, 0), Cube(1, -1)]
}

/// Every cube within `n` steps of `c` has coordinates that fit in an `i32`.
pub open spec fn fits(c: Cube<i32>, n: int) -> bool {
    &&& i32::MIN <= c.0 - n
    &&& c.0 + n <= i32::MAX
    &&& i32::MIN <= c.1 - n
    &&& c.1 + n <= i32::MAX
}

/// The cube with the given integer coordinates.
pub open spec fn cube_at(q: int, r: int) -> Cube<i32> {
    Cube(q as i32, r as i32)
}

/// The `k`-th cube (`0 <= k < 6n`) of the ring of radius `n` around `c`: the walk
/// starts at `c + n * (-1, 0)` and follows the six directions, `n` steps each.
pub open spec fn ring_pos(c: Cube<i32>, n: int, k: int) -> Cube<i32> {
    let q = c.0 as int;
    let r = c.1 as int;
    if k < n {
        cube_at(q - n + k, r - k)
    } else if k < 2 * n {
        cube_at(q + (k - n), r - n)
    } else if k < 3 * n {
        cube_at(q + n, r - n + (k - 2 * n))
    } else if k < 4 * n {
        cube_at(q + n - (k - 3 * n), r + (k - 3 * n))
    } else if k < 5 * n {
        cube_at(q - (k - 4 * n), r + n)
    } else {
        cube_at(q - n, r + n - (k - 5 * n))
    }
}

/// The ring of radius `n` around `c`, in walking order.
pub open spec fn ring_seq(c: Cube<i32>, n: nat) -> Seq<Cube<i32>> {
    Seq::new(6 * n, |k: int| ring_pos(c, n as int, k))
}

/// The rings of radius `1..=n` around `c`, innermost first.
pub open spec fn disc_seq(c: Cube<i32>, n: nat) -> Seq<Cube<i32>>
    decreases n,
{
    if n == 0 {
        Seq::empty()
    } else {
        disc_seq(c, (n - 1) as nat) + ring_seq(c, n)
    }
}

/// Walking one step along the ring: from the `k`-th cube of segment `i`,
/// direction `i` leads to the `k + 1`-th cube.
proof fn lemma_ring_step(c: Cube<i32>, n: int, i: int, k: int)
    requires
        fits(c, n),
        0 <= i < 6,
        n > 0,
        i * n <= k < (i + 1) * n,
        k + 1 < 6 * n,
    ensures
        ring_pos(c, n, k + 1).0 == ring_pos(c, n, k).0 + spec_direction(i).0,
        ring_pos(c, n, k + 1).1 == ring_pos(c, n, k).1 + spec_direction(i).1,
{
    lemma_ring_pos_fits(c, n, k);
    lemma_ring_pos_fits(c, n, k + 1);
    if i == 0 {
        assert((i + 1) * n == n) by (nonlinear_arith)
            requires i == 0;
    } else if i == 1 {
        assert(i * n == n && (i + 1) * n == 2 * n);
    } else if i == 2 {
        assert(i * n == 2 * n && (i + 1) * n == 3 * n);
    } else if i == 3 {
        assert(i * n == 3 * n && (i + 1) * n == 4 * n);
    } else if i == 4 {
        assert(i * n == 4 * n && (i + 1) * n == 5 * n);
    } else {
        assert(i * n == 5 * n && (i + 1) * n == 6 * n);
    }
}

/// Every cube of a ring whose radius fits has in-range coordinates, equal
/// to the unbounded integer walk.
proof fn lemma_ring_pos_fits(c: Cube<i32>, n: int, k: int)
    requires
        fits(c, n),
        n >= 0,
        0 <= k < 6 * n,
    ensures
        c.0 - n <= ring_pos(c, n, k).0 <= c.0 + n,
        c.1 - n <= ring_pos(c, n, k).1 <= c.1 + n,
        ring_pos(c, n, k).0 == ring_q(c, n, k),
        ring_pos(c, n, k).1 == ring_r(c, n, k),
{
}

/// The `q` coordinate of `ring_pos`, computed over the integers.
pub open spec fn ring_q(c: Cube<i32>, n: int, k: int) -> int {
    let q = c.0 as int;
    if k < n {
        q - n + k
    } else if k < 2 * n {
        q + (k - n)
    } else if k < 3 * n {
        q + n
    } else if k < 4 * n {
        q + n - (k - 3 * n)
    } else if k < 5 * n {
        q - (k - 4 * n)
    } else {
        q - n
    }
}

/// The `r` coordinate of `ring_pos`, computed over the integers.
pub open spec fn ring_r(c: Cube<i32>, n: int, k: int) -> int {
    let r = c.1 as int;
    if k < n {
        r - k
    } else if k < 2 * n {
        r - n
    } else if k < 3 * n {
        r - n + (k - 2 * n)
    } else if k < 4 * n {
        r + (k - 3 * n)
    } else if k < 5 * n {
        r + n
    } else {
        r + n - (k - 5 * n)
    }
}

impl Cube<i32> {
    /// The cubes at exactly `n` steps from `self`, walked clockwise
    /// starting from `self + n * (-1, 0)`. The ring of radius 0 is empty.
    pub fn ring(&self, n: usize) -> (result: Vec<Cube<i32>>)
        requires
            fits(*self, n as int),
            6 * n <= usize::MAX,
        ensures
            result@ == ring_seq(*self, n as nat),
    {
        let mut result: Vec<Cube<i32>> = Vec::new();
        if n == 0 {
            assert(result@ =~= ring_seq(*self, 0));
            return result;
        }
        let dirs = directions();
        let ni: i32 = n as i32;
        let mut cube = Cube(self.0 - ni, self.1);
        let mut i: usize = 0;
        while i < 6
            invariant
                fits(*self, n as int),
                ni == n,
                n > 0,
                6 * n <= usize::MAX,
                0 <= i <= 6,
                result.len() == i * n,
                i < 6 ==> cube == ring_pos(*self, n as int, (i * n) as int),
                forall|k: int| 0 <= k < i * n ==> #[trigger] result@[k] == ring_pos(*self, n as int, k),
                forall|t: int| 0 <= t < 6 ==> #[trigger] dirs@[t] == spec_direction(t),
            decreases 6 - i,
        {
            let dir = dirs[i];
            let mut j: usize = 0;
            assert((i + 1) * n == i * n + n) by (nonlinear_arith);
            assert(i * n + n <= 6 * n) by (nonlinear_arith)
                requires i < 6;
            assert(i < 5 ==> i * n + n <= 5 * n) by (nonlinear_arith);
            while j < n
                invariant
                    fits(*self, n as int),
                    ni == n,
                    n > 0,
                    6 * n <= usize::MAX,
                    0 <= i < 6,
                    0 <= j <= n,
                    (i + 1) * n == i * n + n,
                    i * n + n <= 6 * n,
                    i < 5 ==> i * n + n <= 5 * n,
                    dir == spec_direction(i as int),
                    result.len() == i * n + j,
                    (j < n || i < 5) ==> cube == ring_pos(*self, n as int, (i * n + j) as int),
                    forall|k: int| 0 <= k < i * n + j ==> #[trigger] result@[k] == ring_pos(*self, n as int, k),
                decreases n - j,
            {
                let ghost k = (i * n + j) as int;
                result.push(cube);
                if j + 1 < n || i < 5 {
                    proof {
                        lemma_ring_step(*self, n as int, i as int, k);
                        lemma_ring_pos_fits(*self, n as int, k + 1);
                    }
                    cube = Cube(cube.0 + dir.0, cube.1 + dir.1);
                    assert(cube == ring_pos(*self, n as int, k + 1));
                }
                j = j + 1;
            }
            i = i + 1;
        }
        assert(result@ =~= ring_seq(*self, n as nat));
        result
    }
}

impl Cube<i32> {
    /// Every cube at `1..=n` steps from `self`: the rings of radius
    /// `1, 2, ..., n` one after the other. The centre itself is not included.
    pub fn disc(&self, n: usize) -> (result: Vec<Cube<i32>>)
        requires
            fits(*self, n as int),
            3 * n * (n + 1) <= usize::MAX,
        ensures
            result@ == disc_seq(*self, n as nat),
            result@.len() == 3 * n * (n + 1),
    {
        let mut result = self.ring(0);
        assert(result@ =~= disc_seq(*self, 0));
        let mut ring_number: usize = 1;
        while ring_number <= n
            invariant
                fits(*self, n as int),
                3 * n * (n + 1) <= usize::MAX,
                1 <= ring_number <= n + 1,
                result@ == disc_seq(*self, (ring_number - 1) as nat),
                result@.len() == 3 * (ring_number - 1) * ring_number,
            decreases n + 1 - ring_number,
        {
            assert(6 * ring_number <= 3 * n * (n + 1)) by (nonlinear_arith)
                requires 1 <= ring_number <= n;
            assert(3 * (ring_number - 1) * ring_number + 6 * ring_number == 3 * ring_number * (
            ring_number + 1)) by (nonlinear_arith);
            assert(3 * ring_number * (ring_number + 1) <= 3 * n * (n + 1)) by (nonlinear_arith)
                requires 1 <= ring_number <= n;
            let mut ring = self.ring(ring_number);
            result.append(&mut ring);
            ring_number = ring_number + 1;
        }
        result
    }

    /// The implied third coordinate `-q - r`.
    pub fn s(&self) -> (v: i32)
        requires
            self.0 > i32::MIN,
            i32::MIN <= spec_s(*self) <= i32::MAX,
        ensures
            v == spec_s(*self),
    {
        -self.0 - self.1
    }
}

/// Absolute value over the integers.
pub open spec fn abs(x: int) -> int {
    if x < 0 {
        -x
    } else {
        x
    }
}

/// Number of steps from the origin to `(q, r)`.
pub open spec fn hex_length(q: int, r: int) -> int {
    (abs(q) + abs(r) + abs(q + r)) / 2
}

/// Number of steps between two cubes.
pub open spec fn cube_distance(a: Cube<i32>, b: Cube<i32>) -> int {
    hex_length(a.0 - b.0, a.1 - b.1)
}

/// The sum of the absolute coordinates of `(q, r)` fits in an `i32`.
pub open spec fn length_fits(q: int, r: int) -> bool {
    &&& i32::MIN < q <= i32::MAX
    &&& i32::MIN < r <= i32::MAX
    &&& i32::MIN < q + r <= i32::MAX
    &&& abs(q) + abs(r) + abs(q + r) <= i32::MAX
}

/// Absolute value of an `i32` other than `i32::MIN`.
fn abs_i32(x: i32) -> (a: i32)
    requires
        x > i32::MIN,
    ensures
        a == abs(x as int),
{
    if x < 0 {
        -x
    } else {
        x
    }
}

impl Cube<i32> {
    /// Number of steps from the origin.
    pub fn length(&self) -> (l: i32)
        requires
            length_fits(self.0 as int, self.1 as int),
        ensures
            l == hex_length(self.0 as int, self.1 as int),
    {
        let s = -self.0 - self.1;
        (abs_i32(self.0) + abs_i32(self.1) + abs_i32(s)) / 2
    }

    /// Number of steps between `self` and `rhs`.
    pub fn distance(&self, rhs: &Cube<i32>) -> (d: i32)
        requires
            length_fits(self.0 - rhs.0, self.1 - rhs.1),
        ensures
            d == cube_distance(*self, *rhs),
    {
        let delta = Cube(self.0 - rhs.0, self.1 - rhs.1);
        delta.length()
    }
}

/// The sum `n + (n - 1) + ... + 1` of the first `n` positive integers;
/// a non-positive `n` is returned as is.
pub open spec fn spec_triangular(n: int) -> int {
    if n <= 0 {
        n
    } else {
        n * (n + 1) / 2
    }
}

/// The `n`-th triangular number, `n * (n + 1) / 2`.
pub fn triangular_number(n: i32) -> (t: i32)
    requires
        spec_triangular(n as int) <= i32::MAX,
    ensures
        t == spec_triangular(n as int),
{
    let mut triangular_number: i32 = n;
    let mut i: i32 = 1;
    while i < n
        invariant
            1 <= i,
            n > 0 ==> i <= n,
            n > 0 ==> n * (n + 1) / 2 <= i32::MAX,
            n <= 0 ==> triangular_number == n,
            n > 0 ==> 2 * triangular_number == 2 * i * n - (i - 1) * i,
        decreases n - i,
    {
        assert(2 * i * n - (i - 1) * i + 2 * (n - i) == 2 * (i + 1) * n - i * (i + 1)) by (
        nonlinear_arith);
        assert(2 * i * n - (i - 1) * i + 2 * (n - i) <= n * (n + 1)) by (nonlinear_arith)
            requires 1 <= i < n;
        assert(n * (n + 1) <= 2 * (n * (n + 1) / 2) + 1) by (nonlinear_arith);
        triangular_number = triangular_number + (n - i);
        i = i + 1;
    }
    if n > 0 {
        assert(2 * triangular_number == n * (n + 1)) by (nonlinear_arith)
            requires 2 * triangular_number == 2 * i * n - (i - 1) * i, i == n;
    }
    triangular_number
}

/// Both coordinates of `(q, r)` fit in an `i32`.
pub open spec fn in_i32(q: int, r: int) -> bool {
    i32::MIN <= q <= i32::MAX && i32::MIN <= r <= i32::MAX
}

impl Cube<i32> {
    /// Coordinate-wise sum.
    pub fn add(self, rhs: Cube<i32>) -> (c: Cube<i32>)
        requires
            in_i32(self.0 + rhs.0, self.1 + rhs.1),
        ensures
            c.0 == self.0 + rhs.0,
            c.1 == self.1 + rhs.1,
    {
        Cube(self.0 + rhs.0, self.1 + rhs.1)
    }

    /// Adds `other` to `self` in place.
    pub fn add_assign(&mut self, other: Cube<i32>)
        requires
            in_i32(old(self).0 + other.0, old(self).1 + other.1),
        ensures
            final(self).0 == old(self).0 + other.0,
            final(self).1 == old(self).1 + other.1,
    {
        *self = Cube(self.0 + other.0, self.1 + other.1);
    }

    /// Coordinate-wise difference.
    pub fn sub(self, rhs: Cube<i32>) -> (c: Cube<i32>)
        requires
            in_i32(self.0 - rhs.0, self.1 - rhs.1),
        ensures
            c.0 == self.0 - rhs.0,
            c.1 == self.1 - rhs.1,
    {
        Cube(self.0 - rhs.0, self.1 - rhs.1)
    }

    /// Scales both coordinates by `rhs`.
    pub fn mul(self, rhs: i32) -> (c: Cube<i32>)
        requires
            in_i32(self.0 * rhs, self.1 * rhs),
        ensures
            c.0 == self.0 * rhs,
            c.1 == self.1 * rhs,
    {
        Cube(self.0 * rhs, self.1 * rhs)
    }

    /// The opposite cube.
    pub fn neg(self) -> (c: Cube<i32>)
        requires
            in_i32(-self.0, -self.1),
        ensures
            c.0 == -self.0,
            c.1 == -self.1,
    {
        Cube(-self.0, -self.1)
    }
}

/// The position of `x` along the ring of radius `n` around `c`
/// (meaningful when `x` lies on that ring).
pub open spec fn ring_index(c: Cube<i32>, n: int, x: Cube<i32>) -> int {
    let dq = x.0 - c.0;
    let dr = x.1 - c.1;
    let ds = -dq - dr;
    if ds == n && -n < dr <= 0 {
        -dr
    } else if dr == -n && 0 <= dq < n {
        n + dq
    } else if dq == n && -n <= dr < 0 {
        2 * n + (dr + n)
    } else if ds == -n && 0 <= dr < n {
        3 * n + dr
    } else if dr == n && -n < dq <= 0 {
        4 * n - dq
    } else {
        5 * n + (n - dr)
    }
}

/// Each cube of the ring of radius `n >= 1` is `n` steps from the centre, and
/// its position along the ring is recovered by `ring_index`.
pub proof fn lemma_ring_pos_distance(c: Cube<i32>, n: int, k: int)
    requires
        fits(c, n),
        n >= 1,
        0 <= k < 6 * n,
    ensures
        cube_distance(ring_pos(c, n, k), c) == n,
        ring_index(c, n, ring_pos(c, n, k)) == k,
{
    lemma_ring_pos_fits(c, n, k);
}

/// Every cube `n >= 1` steps from `c` lies on the ring of radius `n`.
pub proof fn lemma_ring_complete(c: Cube<i32>, n: int, x: Cube<i32>)
    requires
        fits(c, n),
        n >= 1,
        cube_distance(x, c) == n,
    ensures
        0 <= ring_index(c, n, x) < 6 * n,
        ring_pos(c, n, ring_index(c, n, x)) == x,
{
    let k = ring_index(c, n, x);
    lemma_ring_pos_fits(c, n, k);
}

/// A cube is on the disc of radius `n` around `c` exactly when it is
/// between 1 and `n` steps from `c`; no cube is listed twice, and the disc
/// has `6 * triangular_number(n)` cubes.
pub proof fn lemma_disc_contents(c: Cube<i32>, n: nat)
    requires
        fits(c, n as int),
    ensures
        forall|x: Cube<i32>|
            disc_seq(c, n).contains(x) <==> 1 <= cube_distance(x, c) <= n,
        disc_seq(c, n).no_duplicates(),
        disc_seq(c, n).len() == 6 * spec_triangular(n as int),
    decreases n,
{
    if n == 0 {
        assert forall|x: Cube<i32>| !disc_seq(c, n).contains(x) by {}
    } else {
        let m = (n - 1) as nat;
        lemma_disc_contents(c, m);
        let prev = disc_seq(c, m);
        let ring = ring_seq(c, n);
        assert(disc_seq(c, n) == prev + ring);
        assert forall|k: int| 0 <= k < ring.len() implies cube_distance(#[trigger] ring[k], c)
            == n by {
            lemma_ring_pos_distance(c, n as int, k);
        }
        assert forall|x: Cube<i32>|
            disc_seq(c, n).contains(x) <==> 1 <= cube_distance(x, c) <= n by {
            if disc_seq(c, n).contains(x) {
                let i = choose|i: int| 0 <= i < disc_seq(c, n).len() && disc_seq(c, n)[i] == x;
                if i >= prev.len() {
                    assert(ring[i - prev.len()] == x);
                } else {
                    assert(prev[i] == x);
                    assert(prev.contains(x));
                }
            }
            if 1 <= cube_distance(x, c) <= n {
                if cube_distance(x, c) == n {
                    lemma_ring_complete(c, n as int, x);
                    let k = ring_index(c, n as int, x);
                    assert(disc_seq(c, n)[prev.len() + k] == x);
                } else {
                    assert(prev.contains(x));
                    let i = choose|i: int| 0 <= i < prev.len() && prev[i] == x;
                    assert(disc_seq(c, n)[i] == x);
                }
            }
        }
        assert forall|i: int, j: int|
            0 <= i < disc_seq(c, n).len() && 0 <= j < disc_seq(c, n).len() && i != j implies
            disc_seq(c, n)[i] != disc_seq(c, n)[j] by {
            let s = disc_seq(c, n);
            if i < prev.len() && j < prev.len() {
            } else if i >= prev.len() && j >= prev.len() {
                lemma_ring_pos_distance(c, n as int, i - prev.len());
                lemma_ring_pos_distance(c, n as int, j - prev.len());
            } else if i < prev.len() {
                assert(prev.contains(prev[i]));
                lemma_ring_pos_distance(c, n as int, j - prev.len());
            } else {
                assert(prev.contains(prev[j]));
                lemma_ring_pos_distance(c, n as int, i - prev.len());
            }
        }
        assert(6 * spec_triangular(n as int) == 6 * spec_triangular(m as int) + 6 * n) by (
        nonlinear_arith)
            requires
                n >= 1,
                m == n - 1,
                spec_triangular(n as int) == n * (n + 1) / 2,
                m == 0 ==> spec_triangular(m as int) == 0,
                m > 0 ==> spec_triangular(m as int) == m * (m + 1) / 2,
        ;
    }
}

/// The forward (`f`) and backward (`b`) matrices between cube and pixel
/// coordinates of a hexagon orientation, and the angle of its first corner
/// in sixths of a turn.
#[derive(Clone, Copy)]
pub struct Orientation<T> {
    pub f0: T,
    pub f1: T,
    pub f2: T,
    pub f3: T,
    pub b0: T,
    pub b1: T,
    pub b2: T,
    pub b3: T,
    pub start_angle: T,
}

/// Whether hexagons stand on a corner (pointy) or on an edge (flat).
#[derive(Clone, Copy)]
pub enum OrientationKind<T> {
    Pointy(Orientation<T>),
    Flat(Orientation<T>),
}

/// How the grid is laid out on screen: orientation, size of a hexagon and
/// the pixel position of the origin.
#[derive(Clone, Copy)]
pub struct Layout<T> {
    pub orientation: OrientationKind<T>,
    pub size: [T; 2],
    pub origin: [T; 2],
}

impl<T> OrientationKind<T> {
    /// The matrices of the orientation, whichever kind it is.
    pub fn inner(&self) -> (o: &Orientation<T>)
        ensures
            *o == match *self {
                OrientationKind::Pointy(v) => v,
                OrientationKind::Flat(v) => v,
            },
    {
        match self {
            OrientationKind::Pointy(v) => v,
            OrientationKind::Flat(v) => v,
        }
    }
}

} // verus!
