//! The geographic bounding box of the input's line-string vertices.
//!
//! Coordinates are held as order-preserving integer keys: for any two
//! coordinates `a` and `b` of the input, `a < b` exactly when the key of `a`
//! is below the key of `b`, so the box is the same whichever of the two is
//! compared. The box starts inverted (every minimum at the top of the range,
//! every maximum at the bottom) and stays so until a vertex is added.

use vstd::prelude::*;

verus! {

/// `init` lowered to each value of `s` in turn.
pub open spec fn fold_min(init: int, s: Seq<int>) -> int
    decreases s.len(),
{
    if s.len() == 0 {
        init
    } else {
        let m = fold_min(init, s.drop_last());
        if s.last() < m {
            s.last()
        } else {
            m
        }
    }
}

/// `init` raised to each value of `s` in turn.
pub open spec fn fold_max(init: int, s: Seq<int>) -> int
    decreases s.len(),
{
    if s.len() == 0 {
        init
    } else {
        let m = fold_max(init, s.drop_last());
        if s.last() > m {
            s.last()
        } else {
            m
        }
    }
}

pub open spec fn lons(pts: Seq<(i64, i64)>) -> Seq<int> {
    pts.map_values(|p: (i64, i64)| p.0 as int)
}

pub open spec fn lats(pts: Seq<(i64, i64)>) -> Seq<int> {
    pts.map_values(|p: (i64, i64)| p.1 as int)
}

/// All vertices of all lines, line after line.
pub open spec fn all_points(lines: Seq<Vec<(i64, i64)>>) -> Seq<(i64, i64)>
    decreases lines.len(),
{
    if lines.len() == 0 {
        Seq::empty()
    } else {
        all_points(lines.drop_last()) + lines.last()@
    }
}

/// The box, as `(min_lon, min_lat, max_lon, max_lat)`, after the vertices
/// `pts` were added to `start`.
pub open spec fn extend(start: (int, int, int, int), pts: Seq<(i64, i64)>) -> (int, int, int, int) {
    (
        fold_min(start.0, lons(pts)),
        fold_min(start.1, lats(pts)),
        fold_max(start.2, lons(pts)),
        fold_max(start.3, lats(pts)),
    )
}

/// The inverted box that no vertex has touched yet.
pub open spec fn empty_box() -> (int, int, int, int) {
    (i64::MAX as int, i64::MAX as int, i64::MIN as int, i64::MIN as int)
}

proof fn lemma_fold_bounds(init: int, s: Seq<int>)
    ensures
        fold_min(init, s) <= init,
        forall|k: int| 0 <= k < s.len() ==> fold_min(init, s) <= s[k],
        fold_min(init, s) == init || exists|k: int| 0 <= k < s.len() && s[k] == fold_min(init, s),
        fold_max(init, s) >= init,
        forall|k: int| 0 <= k < s.len() ==> fold_max(init, s) >= s[k],
        fold_max(init, s) == init || exists|k: int| 0 <= k < s.len() && s[k] == fold_max(init, s),
    decreases s.len(),
{
    if s.len() > 0 {
        let p = s.drop_last();
        lemma_fold_bounds(init, p);
        assert forall|k: int| 0 <= k < p.len() implies s[k] == p[k] by {}
        if fold_min(init, p) != init && fold_min(init, s) == fold_min(init, p) {
            let k = choose|k: int| 0 <= k < p.len() && p[k] == fold_min(init, p);
            assert(s[k] == fold_min(init, s));
        }
        if fold_max(init, p) != init && fold_max(init, s) == fold_max(init, p) {
            let k = choose|k: int| 0 <= k < p.len() && p[k] == fold_max(init, p);
            assert(s[k] == fold_max(init, s));
        }
    }
}

/// The box of a set of vertices, started from the inverted box, is their
/// extent: it stays inverted when there is no vertex, and otherwise each of
/// its four sides is the least or greatest coordinate of some vertex.
pub proof fn lemma_box_is_vertex_extent(pts: Seq<(i64, i64)>)
    ensures
        pts.len() == 0 ==> extend(empty_box(), pts) == empty_box(),
        pts.len() > 0 ==> {
            let b = extend(empty_box(), pts);
            &&& forall|k: int|
                0 <= k < pts.len() ==> b.0 <= (#[trigger] pts[k]).0 <= b.2 && b.1 <= pts[k].1 <= b.3
            &&& exists|k: int| 0 <= k < pts.len() && pts[k].0 == b.0
            &&& exists|k: int| 0 <= k < pts.len() && pts[k].1 == b.1
            &&& exists|k: int| 0 <= k < pts.len() && pts[k].0 == b.2
            &&& exists|k: int| 0 <= k < pts.len() && pts[k].1 == b.3
            &&& b.0 <= b.2 && b.1 <= b.3
        },
{
    let e = empty_box();
    lemma_fold_bounds(e.0, lons(pts));
    lemma_fold_bounds(e.1, lats(pts));
    lemma_fold_bounds(e.2, lons(pts));
    lemma_fold_bounds(e.3, lats(pts));
    if pts.len() > 0 {
        let b = extend(empty_box(), pts);
        assert(lons(pts)[0] == pts[0].0 && lats(pts)[0] == pts[0].1);
        if b.0 == e.0 {
            assert(pts[0].0 == b.0);
        }
        if b.1 == e.1 {
            assert(pts[0].1 == b.1);
        }
        if b.2 == e.2 {
            assert(pts[0].0 == b.2);
        }
        if b.3 == e.3 {
            assert(pts[0].1 == b.3);
        }
        assert(b.0 <= pts[0].0 <= b.2);
        assert forall|k: int| 0 <= k < pts.len() implies b.0 <= (#[trigger] pts[k]).0 <= b.2 && b.1
            <= pts[k].1 <= b.3 by {
            assert(lons(pts)[k] == pts[k].0 && lats(pts)[k] == pts[k].1);
        }
    }
}

#[derive(Debug, Clone, Copy, PartialEq, Eq)]
pub struct BBox {
    min_lon: i64,
    min_lat: i64,
    max_lon: i64,
    max_lat: i64,
}

impl BBox {
    pub closed spec fn view(&self) -> (int, int, int, int) {
        (self.min_lon as int, self.min_lat as int, self.max_lon as int, self.max_lat as int)
    }

    /// The inverted box.
    pub fn empty() -> (r: BBox)
        ensures
            r@ == empty_box(),
    {
        BBox { min_lon: i64::MAX, max_lon: i64::MIN, min_lat: i64::MAX, max_lat: i64::MIN }
    }

    /// Widens the box to take in every vertex of one line-string.
    pub fn add(&mut self, line: &Vec<(i64, i64)>)
        ensures
            final(self)@ == extend(old(self)@, line@),
    {
        let ghost start = self@;
        let mut i: usize = 0;
        while i < line.len()
            invariant
                i <= line@.len(),
                self@ == extend(start, line@.take(i as int)),
            decreases line@.len() - i,
        {
            let (lon, lat) = line[i];
            if lon < self.min_lon {
                self.min_lon = lon;
            }
            if lat < self.min_lat {
                self.min_lat = lat;
            }
            if lon > self.max_lon {
                self.max_lon = lon;
            }
            if lat > self.max_lat {
                self.max_lat = lat;
            }
            proof {
                let t = line@.take(i as int + 1);
                assert(t.drop_last() =~= line@.take(i as int));
                assert(lons(t).drop_last() =~= lons(line@.take(i as int)));
                assert(lats(t).drop_last() =~= lats(line@.take(i as int)));
            }
            i = i + 1;
        }
        assert(line@.take(i as int) =~= line@);
    }

    /// No vertex was added yet.
    pub fn is_empty(&self) -> (r: bool)
        ensures
            r == (self@.0 > self@.2),
    {
        self.min_lon > self.max_lon
    }

    pub fn min_lon(&self) -> (r: i64)
        ensures
            r == self@.0,
    {
        self.min_lon
    }

    pub fn min_lat(&self) -> (r: i64)
        ensures
            r == self@.1,
    {
        self.min_lat
    }

    pub fn max_lon(&self) -> (r: i64)
        ensures
            r == self@.2,
    {
        self.max_lon
    }

    pub fn max_lat(&self) -> (r: i64)
        ensures
            r == self@.3,
    {
        self.max_lat
    }
}

} // verus!
