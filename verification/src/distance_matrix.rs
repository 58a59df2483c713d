//! Distance matrices on a number of points, stored in lower-triangular
//! form.

use vstd::prelude::*;

verus! {

/// Stores a distance matrix of a number of points. The distance between two
/// points does not depend on their order, and the distance from a point to
/// itself is zero.
pub struct DistanceMatrix {
    /// A lower-triangular matrix: row `v` holds the distances from `v` to
    /// the points `0..=v`.
    pub distances: Vec<Vec<u64>>,
}

impl DistanceMatrix {
    /// Whether row `v` holds exactly `v + 1` entries, and the diagonal is
    /// zero.
    pub open spec fn wf(self) -> bool {
        &&& forall|v: int|
            0 <= v < self.distances@.len() ==> (#[trigger] self.distances@[v])@.len() == v + 1
        &&& forall|v: int|
            0 <= v < self.distances@.len() ==> (#[trigger] self.distances@[v])@[v] == 0
    }

    /// The distance between the points `u` and `v`, read from the
    /// lower-triangular store.
    pub open spec fn spec_get(self, u: int, v: int) -> u64 {
        if u >= v {
            self.distances@[u]@[v]
        } else {
            self.distances@[v]@[u]
        }
    }

    /// Create a new distance matrix on the given number of points, with all
    /// distances zero.
    pub fn new(n: usize) -> (r: DistanceMatrix)
        ensures
            r.wf(),
            r.distances@.len() == n,
            forall|u: int, v: int| 0 <= u < n && 0 <= v < n ==> r.spec_get(u, v) == 0,
    {
        let mut distances: Vec<Vec<u64>> = Vec::new();
        let mut v: usize = 0;
        while v < n
            invariant
                distances@.len() == v <= n,
                forall|k: int| 0 <= k < v ==> (#[trigger] distances@[k])@.len() == k + 1,
                forall|k: int, i: int|
                    0 <= k < v && 0 <= i <= k ==> #[trigger] distances@[k]@[i] == 0,
            decreases n - v,
        {
            let row: Vec<u64> = vec![0u64; v + 1];
            distances.push(row);
            v = v + 1;
        }
        DistanceMatrix { distances }
    }

    /// Set the distance between two distinct points; both triangular cells
    /// read it back.
    pub fn set(&mut self, u: usize, v: usize, d: u64)
        requires
            old(self).wf(),
            u != v,
            u < old(self).distances@.len(),
            v < old(self).distances@.len(),
        ensures
            final(self).wf(),
            final(self).distances@.len() == old(self).distances@.len(),
            final(self).spec_get(u as int, v as int) == d,
            forall|x: int, y: int|
                0 <= x < old(self).distances@.len() && 0 <= y < old(self).distances@.len() && !(x
                    == u && y == v) && !(x == v && y == u) ==> final(self).spec_get(x, y) == old(
                    self,
                ).spec_get(x, y),
    {
        let (new_u, new_v) = if u >= v {
            (u, v)
        } else {
            (v, u)
        };
        let row = vstd::std_specs::vec::vec_index_mut(&mut self.distances, new_u);
        let ghost old_row = row@;
        row.set(new_v, d);
        proof {
            assert(final(self).distances@ == old(self).distances@.update(
                new_u as int,
                *final(row),
            ));
        }
    }

    /// Returns the number of points.
    pub fn len(&self) -> (r: usize)
        ensures
            r == self.distances@.len(),
    {
        self.distances.len()
    }

    /// Returns whether the distance matrix is empty.
    pub fn is_empty(&self) -> (r: bool)
        ensures
            r == (self.distances@.len() == 0),
    {
        self.distances.len() == 0
    }

    /// Returns the distance between two points.
    pub fn get(&self, u: usize, v: usize) -> (r: u64)
        requires
            self.wf(),
            u < self.distances@.len(),
            v < self.distances@.len(),
        ensures
            r == self.spec_get(u as int, v as int),
    {
        if u >= v {
            self.distances[u][v]
        } else {
            self.distances[v][u]
        }
    }

    /// Calculates the eccentricity (maximum distance of a point to any other
    /// point) of each point, in a straightforward quadratic way.
    pub fn eccentricity_vector(&self) -> (r: Vec<u64>)
        requires
            self.wf(),
        ensures
            r@.len() == self.distances@.len(),
            forall|u: int, v: int|
                0 <= u < self.distances@.len() && 0 <= v < self.distances@.len()
                    ==> #[trigger] self.spec_get(u, v) <= r@[u],
            forall|u: int|
                0 <= u < self.distances@.len() ==> #[trigger] r@[u] == 0 || exists|v: int|
                    0 <= v < self.distances@.len() && self.spec_get(u, v) == r@[u],
    {
        let n = self.distances.len();
        let mut eccentricities: Vec<u64> = Vec::new();
        let mut u: usize = 0;
        while u < n
            invariant
                n == self.distances@.len(),
                self.wf(),
                eccentricities@.len() == u <= n,
                forall|x: int, v: int|
                    0 <= x < u && 0 <= v < n ==> #[trigger] self.spec_get(x, v)
                        <= eccentricities@[x],
                forall|x: int|
                    0 <= x < u ==> #[trigger] eccentricities@[x] == 0 || exists|v: int|
                        0 <= v < n && self.spec_get(x, v) == eccentricities@[x],
            decreases n - u,
        {
            let mut u_max: u64 = 0;
            let mut v: usize = 0;
            while v < n
                invariant
                    n == self.distances@.len(),
                    self.wf(),
                    u < n,
                    v <= n,
                    forall|k: int| 0 <= k < v ==> #[trigger] self.spec_get(u as int, k) <= u_max,
                    u_max == 0 || exists|k: int|
                        0 <= k < n && self.spec_get(u as int, k) == u_max,
                decreases n - v,
            {
                let d = self.get(u, v);
                if d > u_max {
                    u_max = d;
                }
                v = v + 1;
            }
            eccentricities.push(u_max);
            u = u + 1;
            proof {
                assert forall|x: int, w: int| 0 <= x < u && 0 <= w < n implies #[trigger] self
                    .spec_get(x, w) <= eccentricities@[x] by {
                    if x == u - 1 {
                        assert(self.spec_get(x, w) <= u_max);
                    }
                }
            }
        }
        eccentricities
    }
}

} // verus!
