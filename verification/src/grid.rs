//! Uniform 2D spatial hash: ids bucketed by the grid cell of their position.
use vstd::prelude::*;
use crate::math::Vector2D;

verus! {

/// Integer cell coordinate, derived by floor division of a position by the
/// cell size.
#[derive(Clone, Copy, Debug, PartialEq, Eq, Structural)]
pub struct GridCoord {
    pub x: i64,
    pub y: i64,
}

impl GridCoord {
    pub fn new(x: i64, y: i64) -> (c: GridCoord)
        ensures
            c.x == x,
            c.y == y,
    {
        GridCoord { x, y }
    }
}

/// Floor-division bounds: the quotient lies between the dividend and zero.
pub proof fn lemma_div_bounds(x: int, d: int)
    requires
        d >= 1,
    ensures
        x >= 0 ==> 0 <= x / d <= x,
        x < 0 ==> x <= x / d <= 0,
{
    vstd::arithmetic::div_mod::lemma_fundamental_div_mod(x, d);
    let q = x / d;
    let r = x % d;
    if x >= 0 {
        assert(0 <= q && q <= x) by (nonlinear_arith)
            requires
                x == d * q + r,
                0 <= r < d,
                d >= 1,
                x >= 0,
        ;
    } else {
        assert(x <= q && q <= 0) by (nonlinear_arith)
            requires
                x == d * q + r,
                0 <= r < d,
                d >= 1,
                x < 0,
        ;
    }
}

/// First index holding a bucket for the cell, or -1.
pub open spec fn find_bucket(s: Seq<(GridCoord, Vec<String>)>, c: GridCoord) -> int
    decreases s.len(),
{
    if s.len() == 0 {
        -1
    } else if s[0].0 == c {
        0
    } else {
        let r = find_bucket(s.drop_first(), c);
        if r < 0 {
            -1
        } else {
            r + 1
        }
    }
}

pub proof fn lemma_find_bucket_props(s: Seq<(GridCoord, Vec<String>)>, c: GridCoord)
    ensures
        find_bucket(s, c) == -1 ==> forall|i: int| 0 <= i < s.len() ==> (#[trigger] s[i]).0 != c,
        find_bucket(s, c) >= 0 ==> 0 <= find_bucket(s, c) < s.len() && s[find_bucket(s, c)].0
            == c,
    decreases s.len(),
{
    if s.len() > 0 {
        lemma_find_bucket_props(s.drop_first(), c);
        if s[0].0 != c {
            assert forall|i: int|
                0 <= i < s.len() && find_bucket(s, c) == -1 implies (#[trigger] s[i]).0 != c by {
                if i > 0 {
                    assert(s.drop_first()[i - 1] == s[i]);
                }
            }
            if find_bucket(s, c) >= 0 {
                assert(s.drop_first()[find_bucket(s.drop_first(), c)] == s[find_bucket(s, c)]);
            }
        }
    }
}

/// In a sequence whose earlier entries do not hold the cell, a match at `i`
/// is the first match.
pub proof fn lemma_find_bucket_at(s: Seq<(GridCoord, Vec<String>)>, c: GridCoord, i: int)
    requires
        0 <= i < s.len(),
        s[i].0 == c,
        forall|j: int| 0 <= j < i ==> (#[trigger] s[j]).0 != c,
    ensures
        find_bucket(s, c) == i,
    decreases s.len(),
{
    if i == 0 {
    } else {
        assert(s[0].0 != c);
        assert(s.drop_first()[i - 1] == s[i]);
        assert forall|j: int| 0 <= j < i - 1 implies (#[trigger] s.drop_first()[j]).0 != c by {
            assert(s.drop_first()[j] == s[j + 1]);
        }
        lemma_find_bucket_at(s.drop_first(), c, i - 1);
    }
}

pub proof fn lemma_find_bucket_none(s: Seq<(GridCoord, Vec<String>)>, c: GridCoord)
    requires
        forall|j: int| 0 <= j < s.len() ==> (#[trigger] s[j]).0 != c,
    ensures
        find_bucket(s, c) == -1,
    decreases s.len(),
{
    if s.len() > 0 {
        assert forall|j: int|
            0 <= j < s.drop_first().len() implies (#[trigger] s.drop_first()[j]).0 != c by {
            assert(s.drop_first()[j] == s[j + 1]);
        }
        lemma_find_bucket_none(s.drop_first(), c);
    }
}

/// The sequence with every occurrence of one id dropped, order kept.
pub open spec fn remove_id(s: Seq<Seq<char>>, ex: Seq<char>) -> Seq<Seq<char>>
    decreases s.len(),
{
    if s.len() == 0 {
        Seq::empty()
    } else {
        let rest = remove_id(s.drop_last(), ex);
        if s.last() == ex {
            rest
        } else {
            rest.push(s.last())
        }
    }
}

/// Membership in the id-filtered sequence: exactly the other ids.
pub proof fn lemma_remove_id_membership(s: Seq<Seq<char>>, ex: Seq<char>)
    ensures
        forall|x: Seq<char>|
            #[trigger] remove_id(s, ex).contains(x) <==> (s.contains(x) && x != ex),
    decreases s.len(),
{
    if s.len() > 0 {
        lemma_remove_id_membership(s.drop_last(), ex);
        let rest = remove_id(s.drop_last(), ex);
        assert forall|x: Seq<char>|
            #[trigger] remove_id(s, ex).contains(x) <==> (s.contains(x) && x != ex) by {
            if remove_id(s, ex).contains(x) {
                let i = choose|i: int|
                    0 <= i < remove_id(s, ex).len() && remove_id(s, ex)[i] == x;
                if s.last() != ex && i == rest.len() {
                    assert(x == s.last());
                    assert(s[s.len() - 1] == x);
                    assert(s.contains(x));
                } else {
                    assert(rest[i] == x);
                    assert(rest.contains(x));
                    assert(s.drop_last().contains(x) && x != ex);
                    let w = choose|w: int| 0 <= w < s.drop_last().len() && s.drop_last()[w] == x;
                    assert(s[w] == x);
                    assert(s.contains(x));
                }
            }
            if s.contains(x) && x != ex {
                let i = choose|i: int| 0 <= i < s.len() && s[i] == x;
                if i < s.len() - 1 {
                    assert(s.drop_last()[i] == x);
                    assert(s.drop_last().contains(x));
                    assert(rest.contains(x));
                    let w = choose|w: int| 0 <= w < rest.len() && rest[w] == x;
                    assert(remove_id(s, ex)[w] == x);
                    assert(remove_id(s, ex).contains(x));
                } else {
                    assert(x == s.last());
                    assert(remove_id(s, ex)[rest.len() as int] == x);
                    assert(remove_id(s, ex).contains(x));
                }
            }
        }
    }
}

/// The `n`-th cell of the 3-by-3 neighborhood around a center cell, in the
/// traversal order of `get_nearby_ids`.
pub open spec fn nearby_cell(center: GridCoord, n: int) -> GridCoord {
    GridCoord { x: (center.x + n / 3 - 1) as i64, y: (center.y + n % 3 - 1) as i64 }
}

/// Uniform bucket index of track ids by grid cell.
pub struct SpatialGrid {
    cell_size: i64,
    buckets: Vec<(GridCoord, Vec<String>)>,
}

impl SpatialGrid {
    pub closed spec fn spec_cell_size(self) -> int {
        self.cell_size as int
    }

    pub closed spec fn spec_buckets(self) -> Seq<(GridCoord, Vec<String>)> {
        self.buckets@
    }

    /// Each cell owns at most one bucket; the cell size is positive.
    pub closed spec fn wf(self) -> bool {
        &&& self.cell_size >= 1
        &&& forall|i: int, j: int|
            0 <= i < j < self.buckets@.len() ==> (#[trigger] self.buckets@[i]).0 != (
            #[trigger] self.buckets@[j]).0
    }

    /// The grid cell a position falls in (floor division, so the negative
    /// quadrants behave as expected).
    pub open spec fn spec_cell_of(self, p: Vector2D) -> GridCoord {
        GridCoord {
            x: (p.x as int / self.spec_cell_size()) as i64,
            y: (p.y as int / self.spec_cell_size()) as i64,
        }
    }

    /// The ids bucketed in the given cell, in insertion order.
    pub open spec fn spec_bucket(self, c: GridCoord) -> Seq<Seq<char>> {
        let i = find_bucket(self.spec_buckets(), c);
        if i >= 0 {
            self.spec_buckets()[i].1.deep_view()
        } else {
            Seq::empty()
        }
    }

    pub open spec fn spec_has_bucket(self, c: GridCoord) -> bool {
        find_bucket(self.spec_buckets(), c) >= 0
    }

    pub fn new(cell_size: i64) -> (g: SpatialGrid)
        requires
            cell_size >= 1,
        ensures
            g.wf(),
            g.spec_cell_size() == cell_size,
            g.spec_buckets().len() == 0,
            forall|c: GridCoord| #[trigger] g.spec_bucket(c) == Seq::<Seq<char>>::empty(),
    {
        SpatialGrid { cell_size, buckets: Vec::new() }
    }

    pub fn to_grid_coord(&self, coords: Vector2D) -> (c: GridCoord)
        requires
            self.wf(),
        ensures
            c == self.spec_cell_of(coords),
    {
        proof {
            lemma_div_bounds(coords.x as int, self.cell_size as int);
            lemma_div_bounds(coords.y as int, self.cell_size as int);
        }
        let x = match coords.x.checked_div_euclid(self.cell_size) {
            Some(v) => v,
            None => 0,
        };
        let y = match coords.y.checked_div_euclid(self.cell_size) {
            Some(v) => v,
            None => 0,
        };
        GridCoord { x, y }
    }

    /// Empties every bucket.
    pub fn clear(&mut self)
        requires
            old(self).wf(),
        ensures
            final(self).wf(),
            final(self).spec_cell_size() == old(self).spec_cell_size(),
            final(self).spec_buckets().len() == 0,
            forall|c: GridCoord| #[trigger] final(self).spec_bucket(c) == Seq::<Seq<char>>::empty(),
    {
        self.buckets.clear();
    }

    /// The bucket for a cell, if that cell holds one.
    pub fn get_bucket(&self, coord: &GridCoord) -> (r: Option<&Vec<String>>)
        requires
            self.wf(),
        ensures
            match r {
                Some(v) => self.spec_has_bucket(*coord) && v.deep_view() == self.spec_bucket(
                    *coord,
                ),
                None => !self.spec_has_bucket(*coord),
            },
    {
        let n = self.buckets.len();
        for i in 0..n
            invariant
                self.wf(),
                n == self.buckets@.len(),
                forall|j: int| 0 <= j < i ==> (#[trigger] self.buckets@[j]).0 != *coord,
        {
            if self.buckets[i].0 == *coord {
                proof {
                    lemma_find_bucket_at(self.spec_buckets(), *coord, i as int);
                }
                return Some(&self.buckets[i].1);
            }
        }
        proof {
            lemma_find_bucket_none(self.spec_buckets(), *coord);
        }
        None
    }

    /// The neighbor ids gathered from the first `n` cells of the 3-by-3
    /// block, the excluded id dropped.
    pub open spec fn spec_nearby_prefix(self, ex: Seq<char>, center: GridCoord, n: int) -> Seq<
        Seq<char>,
    >
        decreases n,
    {
        if n <= 0 {
            Seq::empty()
        } else {
            self.spec_nearby_prefix(ex, center, n - 1) + remove_id(
                self.spec_bucket(nearby_cell(center, n - 1)),
                ex,
            )
        }
    }

    /// Every id in the 3-by-3 block of cells around the position's cell,
    /// except the excluded one, in cell-traversal order.
    pub open spec fn spec_nearby(self, ex: Seq<char>, p: Vector2D) -> Seq<Seq<char>> {
        self.spec_nearby_prefix(ex, self.spec_cell_of(p), 9)
    }

    /// Collects every id in the 3-by-3 block of cells around the position,
    /// skipping entries equal to `exclude_id`.
    pub fn get_nearby_ids(&self, exclude_id: &String, position: Vector2D) -> (r: Vec<String>)
        requires
            self.wf(),
            position.wf(),
        ensures
            r.deep_view() == self.spec_nearby(exclude_id@, position),
    {
        proof {
            lemma_div_bounds(position.x as int, self.spec_cell_size());
            lemma_div_bounds(position.y as int, self.spec_cell_size());
        }
        let center = self.to_grid_coord(position);
        let mut out: Vec<String> = Vec::new();
        for n in 0..9usize
            invariant
                self.wf(),
                center == self.spec_cell_of(position),
                -0x2000_0000_0000_0000 <= center.x <= 0x2000_0000_0000_0000,
                -0x2000_0000_0000_0000 <= center.y <= 0x2000_0000_0000_0000,
                out.deep_view() == self.spec_nearby_prefix(exclude_id@, center, n as int),
        {
            let dx = (n / 3) as i64;
            let dy = (n % 3) as i64;
            let cell = GridCoord::new(center.x + dx - 1, center.y + dy - 1);
            proof {
                assert(cell == nearby_cell(center, n as int));
            }
            let ghost pre = out.deep_view();
            match self.get_bucket(&cell) {
                Some(bucket) => {
                    let m = bucket.len();
                    for j in 0..m
                        invariant
                            m == bucket@.len(),
                            bucket.deep_view() == self.spec_bucket(nearby_cell(center, n as int)),
                            out.deep_view() =~= pre + remove_id(
                                bucket.deep_view().take(j as int),
                                exclude_id@,
                            ),
                    {
                        proof {
                            assert(bucket.deep_view().take(j + 1).drop_last() =~= bucket.deep_view(
                            ).take(j as int));
                            assert(bucket.deep_view().take(j + 1).last() == bucket@[j as int]@);
                        }
                        let ghost bd = bucket.deep_view();
                        proof {
                            assert(bd[j as int] == bucket@[j as int]@);
                        }
                        if !(bucket[j] == *exclude_id) {
                            out.push(bucket[j].clone());
                            proof {
                                assert(remove_id(bd.take(j + 1), exclude_id@) =~= remove_id(
                                    bd.take(j as int),
                                    exclude_id@,
                                ).push(bd[j as int]));
                                assert(out.deep_view() =~= (pre + remove_id(
                                    bd.take(j as int),
                                    exclude_id@,
                                )).push(bd[j as int]));
                                assert(pre + remove_id(bd.take(j + 1), exclude_id@) =~= (pre
                                    + remove_id(bd.take(j as int), exclude_id@)).push(
                                    bd[j as int],
                                ));
                            }
                        } else {
                            proof {
                                assert(remove_id(bd.take(j + 1), exclude_id@) =~= remove_id(
                                    bd.take(j as int),
                                    exclude_id@,
                                ));
                            }
                        }
                    }
                    proof {
                        assert(bucket.deep_view().take(m as int) =~= bucket.deep_view());
                        assert(out.deep_view() =~= self.spec_nearby_prefix(
                            exclude_id@,
                            center,
                            n + 1,
                        ));
                    }
                },
                None => {
                    proof {
                        assert(self.spec_bucket(nearby_cell(center, n as int))
                            =~= Seq::<Seq<char>>::empty());
                        assert(out.deep_view() =~= self.spec_nearby_prefix(
                            exclude_id@,
                            center,
                            n + 1,
                        ));
                    }
                },
            }
        }
        out
    }

    /// Appends the id to the bucket of the cell its position falls in;
    /// every other bucket keeps its contents.
    pub fn insert(&mut self, id: String, position: Vector2D)
        requires
            old(self).wf(),
        ensures
            final(self).wf(),
            final(self).spec_cell_size() == old(self).spec_cell_size(),
            final(self).spec_bucket(old(self).spec_cell_of(position)) == old(self).spec_bucket(
                old(self).spec_cell_of(position),
            ).push(id@),
            forall|c: GridCoord|
                c != old(self).spec_cell_of(position) ==> #[trigger] final(self).spec_bucket(c)
                    == old(self).spec_bucket(c),
    {
        let key = self.to_grid_coord(position);
        let ghost old_seq = self.buckets@;
        let n = self.buckets.len();
        let mut found: Option<usize> = None;
        for i in 0..n
            invariant
                self.wf(),
                self.buckets@ == old_seq,
                n == old_seq.len(),
                match found {
                    Some(fi) => fi < i && old_seq[fi as int].0 == key,
                    None => forall|j: int| 0 <= j < i ==> (#[trigger] old_seq[j]).0 != key,
                },
        {
            if matches!(found, None) {
                if self.buckets[i].0 == key {
                    found = Some(i);
                }
            }
        }
        match found {
            Some(fi) => {
                proof {
                    lemma_find_bucket_at(old_seq, key, fi as int);
                }
                let mut bucket = self.buckets.remove(fi);
                bucket.1.push(id);
                self.buckets.push(bucket);
                proof {
                    let new_seq = self.buckets@;
                    let last = new_seq.len() - 1;
                    // the only bucket for `key` moved to the end
                    assert forall|j: int| 0 <= j < last implies (#[trigger] new_seq[j]).0
                        != key by {
                        if j < fi {
                            assert(new_seq[j] == old_seq[j]);
                        } else {
                            assert(new_seq[j] == old_seq[j + 1]);
                        }
                    }
                    lemma_find_bucket_at(new_seq, key, last);
                    assert(new_seq[last].1.deep_view() =~= old_seq[fi as int].1.deep_view().push(
                        id@,
                    ));
                    assert forall|c: GridCoord|
                        c != key implies #[trigger] self.spec_bucket(c) == old(self).spec_bucket(
                        c,
                    ) by {
                        lemma_find_bucket_props(old_seq, c);
                        let r = find_bucket(old_seq, c);
                        if r >= 0 {
                            let pos: int = if r < fi {
                                r
                            } else {
                                r - 1
                            };
                            assert(new_seq[pos] == old_seq[r]);
                            assert forall|j: int| 0 <= j < pos implies (#[trigger] new_seq[j]).0
                                != c by {
                                if j < fi {
                                    assert(new_seq[j] == old_seq[j]);
                                } else {
                                    assert(new_seq[j] == old_seq[j + 1]);
                                }
                            }
                            lemma_find_bucket_at(new_seq, c, pos);
                        } else {
                            assert forall|j: int| 0 <= j < new_seq.len() implies (
                            #[trigger] new_seq[j]).0 != c by {
                                if j < fi {
                                    assert(new_seq[j] == old_seq[j]);
                                } else if j < new_seq.len() - 1 {
                                    assert(new_seq[j] == old_seq[j + 1]);
                                }
                            }
                            lemma_find_bucket_none(new_seq, c);
                        }
                    }
                    // uniqueness is preserved: same cells, one moved to the end
                    assert forall|i2: int, j2: int|
                        0 <= i2 < j2 < new_seq.len() implies (#[trigger] new_seq[i2]).0 != (
                    #[trigger] new_seq[j2]).0 by {
                        let oi: int = if i2 < fi {
                            i2
                        } else if i2 < new_seq.len() - 1 {
                            i2 + 1
                        } else {
                            fi as int
                        };
                        let oj: int = if j2 < fi {
                            j2
                        } else if j2 < new_seq.len() - 1 {
                            j2 + 1
                        } else {
                            fi as int
                        };
                        assert(new_seq[i2].0 == old_seq[oi].0);
                        assert(new_seq[j2].0 == old_seq[oj].0);
                    }
                }
            },
            None => {
                proof {
                    lemma_find_bucket_none(old_seq, key);
                }
                let mut fresh: Vec<String> = Vec::new();
                fresh.push(id);
                self.buckets.push((key, fresh));
                proof {
                    let new_seq = self.buckets@;
                    let last = new_seq.len() - 1;
                    lemma_find_bucket_at(new_seq, key, last);
                    assert(new_seq[last].1.deep_view() =~= Seq::<Seq<char>>::empty().push(id@));
                    assert forall|c: GridCoord|
                        c != key implies #[trigger] self.spec_bucket(c) == old(self).spec_bucket(
                        c,
                    ) by {
                        lemma_find_bucket_props(old_seq, c);
                        let r = find_bucket(old_seq, c);
                        if r >= 0 {
                            lemma_find_bucket_at(new_seq, c, r);
                        } else {
                            lemma_find_bucket_none(new_seq, c);
                        }
                    }
                }
            },
        }
    }
}

} // verus!
