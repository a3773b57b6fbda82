//! What loading the features computes besides the spatial index: the feature
//! count, the bounding box of the line-string vertices in geographic
//! coordinates (before reprojection), and the set of attribute keys.

use vstd::prelude::*;

use crate::bbox::{empty_box, extend, fold_max, fold_min, lats, lons, BBox};

verus! {

/// What the loader reads of one input feature.
#[derive(Debug, Clone)]
pub struct FeatureInfo {
    /// The record carries a geometry.
    pub has_geometry: bool,
    /// The vertices (as coordinate keys) when the geometry is a line-string.
    pub line: Option<Vec<(i64, i64)>>,
    /// The keys of the feature's attributes, if it has any.
    pub attribute_keys: Vec<String>,
}

#[derive(Debug, Clone, Copy, PartialEq, Eq)]
pub enum LoadError {
    /// The feature at this position has no geometry.
    MissingGeometry(usize),
}

/// The attribute keys seen on any feature, each once.
#[derive(Debug)]
pub struct FieldSchema {
    keys: Vec<String>,
}

/// Everything the planner and the archive header need from the input.
#[derive(Debug)]
pub struct LoadSummary {
    pub feature_count: usize,
    pub bbox: BBox,
    pub fields: FieldSchema,
}

/// The vertices of the line-string features, feature after feature.
pub open spec fn line_vertices(fs: Seq<FeatureInfo>) -> Seq<(i64, i64)>
    decreases fs.len(),
{
    if fs.len() == 0 {
        Seq::empty()
    } else {
        line_vertices(fs.drop_last()) + match fs.last().line {
            Some(l) => l@,
            None => Seq::empty(),
        }
    }
}

/// Some feature carries `key` among its attribute keys.
pub open spec fn key_seen(fs: Seq<FeatureInfo>, key: Seq<char>) -> bool {
    exists|i: int, j: int|
        0 <= i < fs.len() && 0 <= j < fs[i].attribute_keys@.len() && (
        #[trigger] fs[i].attribute_keys@[j])@ == key
}

/// One of the first `n` keys of `keys` is `key`.
pub open spec fn key_among(keys: Seq<String>, n: int, key: Seq<char>) -> bool {
    exists|j: int| 0 <= j < n && (#[trigger] keys[j])@ == key
}

impl FieldSchema {
    pub closed spec fn view(&self) -> Seq<Seq<char>> {
        self.keys@.map_values(|k: String| k@)
    }

    /// No key is listed twice.
    pub open spec fn wf(&self) -> bool {
        forall|a: int, b: int| 0 <= a < b < self@.len() ==> self@[a] != self@[b]
    }

    pub fn new() -> (r: FieldSchema)
        ensures
            r@ == Seq::<Seq<char>>::empty(),
            r.wf(),
    {
        FieldSchema { keys: Vec::new() }
    }

    /// Adds `key` unless it is already listed.
    pub fn register(&mut self, key: &String)
        requires
            old(self).wf(),
        ensures
            final(self).wf(),
            old(self)@.contains(key@) ==> final(self)@ == old(self)@,
            !old(self)@.contains(key@) ==> final(self)@ == old(self)@.push(key@),
    {
        let mut i: usize = 0;
        while i < self.keys.len()
            invariant
                i <= self.keys@.len(),
                self@ == old(self)@,
                self.wf(),
                forall|a: int| 0 <= a < i ==> self@[a] != key@,
            decreases self.keys@.len() - i,
        {
            if self.keys[i] == *key {
                assert(self@[i as int] == key@);
                return;
            }
            i = i + 1;
        }
        let ghost before = self@;
        self.keys.push(key.clone());
        assert(self@ =~= before.push(key@));
    }

    /// The keys, in the order in which they were first seen.
    pub fn keys(&self) -> (r: &Vec<String>)
        ensures
            r@.map_values(|k: String| k@) == self@,
    {
        &self.keys
    }
}

/// `fold_min` over two pieces is `fold_min` over the first, continued over the second.
pub proof fn lemma_fold_concat(init: int, a: Seq<int>, b: Seq<int>)
    ensures
        fold_min(init, a + b) == fold_min(fold_min(init, a), b),
        fold_max(init, a + b) == fold_max(fold_max(init, a), b),
    decreases b.len(),
{
    if b.len() > 0 {
        assert((a + b).drop_last() =~= a + b.drop_last());
        lemma_fold_concat(init, a, b.drop_last());
    } else {
        assert(a + b =~= a);
    }
}

/// Adding the vertices `a` and then `b` gives the box of `a + b`.
pub proof fn lemma_extend_concat(start: (int, int, int, int), a: Seq<(i64, i64)>, b: Seq<(i64, i64)>)
    ensures
        extend(extend(start, a), b) == extend(start, a + b),
{
    assert(lons(a + b) =~= lons(a) + lons(b));
    assert(lats(a + b) =~= lats(a) + lats(b));
    lemma_fold_concat(start.0, lons(a), lons(b));
    lemma_fold_concat(start.1, lats(a), lats(b));
    lemma_fold_concat(start.2, lons(a), lons(b));
    lemma_fold_concat(start.3, lats(a), lats(b));
}

/// Reads the features once: fails with `MissingGeometry` at the first one
/// without a geometry; otherwise counts them, takes the bounding box of the
/// line-string vertices (other kinds of geometry do not widen it) and lists
/// every attribute key once.
pub fn load_features(features: &Vec<FeatureInfo>) -> (r: Result<LoadSummary, LoadError>)
    ensures
        (exists|i: int| 0 <= i < features@.len() && !features@[i].has_geometry) <==> r.is_err(),
        r matches Err(LoadError::MissingGeometry(i)) ==> i < features@.len()
            && !features@[i as int].has_geometry && forall|j: int|
            0 <= j < i ==> features@[j].has_geometry,
        r matches Ok(s) ==> {
            &&& s.feature_count == features@.len()
            &&& s.bbox@ == extend(empty_box(), line_vertices(features@))
            &&& s.fields.wf()
            &&& forall|key: Seq<char>| s.fields@.contains(key) <==> key_seen(features@, key)
        },
{
    let mut bbox = BBox::empty();
    let mut fields = FieldSchema::new();
    let mut i: usize = 0;
    while i < features.len()
        invariant
            i <= features@.len(),
            forall|j: int| 0 <= j < i ==> features@[j].has_geometry,
            bbox@ == extend(empty_box(), line_vertices(features@.take(i as int))),
            fields.wf(),
            forall|key: Seq<char>|
                fields@.contains(key) <==> key_seen(features@.take(i as int), key),
        decreases features@.len() - i,
    {
        let f = &features[i];
        if !f.has_geometry {
            return Err(LoadError::MissingGeometry(i));
        }
        let ghost seen = features@.take(i as int);
        let ghost next = features@.take(i as int + 1);
        proof {
            assert(next.drop_last() =~= seen);
            assert(next.last() == *f);
        }
        match &f.line {
            Some(line) => {
                bbox.add(line);
                proof {
                    lemma_extend_concat(empty_box(), line_vertices(seen), line@);
                }
            },
            None => {
                assert(line_vertices(next) =~= line_vertices(seen));
            },
        }
        let mut k: usize = 0;
        while k < f.attribute_keys.len()
            invariant
                k <= f.attribute_keys@.len(),
                i < features@.len(),
                seen == features@.take(i as int),
                next == features@.take(i as int + 1),
                *f == features@[i as int],
                forall|j: int| 0 <= j <= i ==> features@[j].has_geometry,
                bbox@ == extend(empty_box(), line_vertices(next)),
                fields.wf(),
                forall|key: Seq<char>|
                    fields@.contains(key) <==> (key_seen(seen, key) || key_among(f.attribute_keys@, k as int, key)),
            decreases f.attribute_keys@.len() - k,
        {
            let ghost before = fields@;
            assert(forall|key: Seq<char>|
                before.contains(key) <==> (key_seen(seen, key) || key_among(f.attribute_keys@, k as int, key)));
            fields.register(&f.attribute_keys[k]);
            proof {
                let added = f.attribute_keys@[k as int];
                assert forall|key: Seq<char>|
                    fields@.contains(key) <==> (before.contains(key) || key == added@) by {
                    if fields@.contains(key) && key != added@ {
                        let a = choose|a: int| 0 <= a < fields@.len() && fields@[a] == key;
                        if !before.contains(added@) {
                            assert(a < before.len());
                        }
                        assert(before[a] == key);
                    }
                    if before.contains(key) {
                        let a = choose|a: int| 0 <= a < before.len() && before[a] == key;
                        if !before.contains(added@) {
                            assert(fields@[a] == key);
                        }
                    }
                    if key == added@ && !before.contains(key) {
                        assert(fields@[before.len() as int] == key);
                    }
                }
                assert forall|key: Seq<char>|
                    #![trigger fields@.contains(key)]
                    fields@.contains(key) <==> (key_seen(seen, key) || key_among(f.attribute_keys@, k + 1, key)) by {
                    if key == added@ {
                        assert(f.attribute_keys@[k as int]@ == key);
                    }
                    if exists|j: int| 0 <= j < k + 1 && (#[trigger] f.attribute_keys@[j])@ == key {
                        let j = choose|j: int|
                            0 <= j < k + 1 && (#[trigger] f.attribute_keys@[j])@ == key;
                        if j < k {
                            assert(key_among(f.attribute_keys@, k as int, key));
                            assert(before.contains(key));
                        }
                    }
                }
            }
            k = k + 1;
        }
        proof {
            assert forall|key: Seq<char>|
                #![trigger key_seen(next, key)]
                key_seen(next, key) <==> (key_seen(seen, key) || key_among(f.attribute_keys@, f.attribute_keys@.len() as int, key)) by {
                if key_seen(next, key) {
                    let (a, j) = choose|a: int, j: int|
                        0 <= a < next.len() && 0 <= j < next[a].attribute_keys@.len() && (
                        #[trigger] next[a].attribute_keys@[j])@ == key;
                    if a < i {
                        assert(seen[a] == next[a]);
                        assert(seen[a].attribute_keys@[j]@ == key);
                    } else {
                        assert(next[a] == *f);
                        assert(f.attribute_keys@[j]@ == key);
                    }
                }
                if key_seen(seen, key) {
                    let (a, j) = choose|a: int, j: int|
                        0 <= a < seen.len() && 0 <= j < seen[a].attribute_keys@.len() && (
                        #[trigger] seen[a].attribute_keys@[j])@ == key;
                    assert(next[a] == seen[a]);
                    assert(next[a].attribute_keys@[j]@ == key);
                }
                if key_among(f.attribute_keys@, f.attribute_keys@.len() as int, key) {
                    let j = choose|j: int|
                        0 <= j < f.attribute_keys@.len() && (#[trigger] f.attribute_keys@[j])@ == key;
                    assert(next[i as int].attribute_keys@[j]@ == key);
                }
            }
            assert forall|key: Seq<char>| #![trigger key_seen(next, key)]
                fields@.contains(key) <==> key_seen(next, key) by {}
        }
        i = i + 1;
    }
    assert(features@.take(i as int) =~= features@);
    Ok(LoadSummary { feature_count: features.len(), bbox, fields })
}

} // verus!
