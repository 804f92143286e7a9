//! Base-relative paths as bytes, and tables keyed by them.
//!
//! A path is the exact byte string the filesystem holds, so every comparison
//! here is byte-wise. A table keeps one row per path, in byte order.

use vstd::prelude::*;

verus! {

/// Byte order on paths: the first differing byte decides, and a proper prefix
/// comes before what it is a prefix of.
pub open spec fn path_before(a: Seq<u8>, b: Seq<u8>) -> bool
    decreases a.len(),
{
    if b.len() == 0 {
        false
    } else if a.len() == 0 {
        true
    } else if a[0] != b[0] {
        a[0] < b[0]
    } else {
        path_before(a.drop_first(), b.drop_first())
    }
}

/// Where one path stands relative to another.
#[derive(Debug, Clone, Copy, PartialEq, Eq, Structural)]
pub enum Place {
    Before,
    Same,
    After,
}

proof fn lemma_before_irreflexive(a: Seq<u8>)
    ensures
        !path_before(a, a),
    decreases a.len(),
{
    if a.len() > 0 {
        lemma_before_irreflexive(a.drop_first());
    }
}

proof fn lemma_before_transitive(a: Seq<u8>, b: Seq<u8>, c: Seq<u8>)
    requires
        path_before(a, b),
        path_before(b, c),
    ensures
        path_before(a, c),
    decreases a.len(),
{
    if a.len() > 0 && a[0] == b[0] && b[0] == c[0] {
        lemma_before_transitive(a.drop_first(), b.drop_first(), c.drop_first());
    }
}

proof fn lemma_before_asymmetric(a: Seq<u8>, b: Seq<u8>)
    requires
        path_before(a, b),
    ensures
        a != b,
        !path_before(b, a),
{
    lemma_before_irreflexive(a);
    if path_before(b, a) {
        lemma_before_transitive(a, b, a);
    }
}

proof fn lemma_shared_prefix(a: Seq<u8>, b: Seq<u8>, n: nat)
    requires
        n <= a.len(),
        n <= b.len(),
        forall|k: int| 0 <= k < n ==> a[k] == b[k],
    ensures
        path_before(a, b) == path_before(a.skip(n as int), b.skip(n as int)),
    decreases n,
{
    if n == 0 {
        assert(a.skip(0) =~= a);
        assert(b.skip(0) =~= b);
    } else {
        lemma_shared_prefix(a.drop_first(), b.drop_first(), (n - 1) as nat);
        assert(a.drop_first().skip(n - 1) =~= a.skip(n as int));
        assert(b.drop_first().skip(n - 1) =~= b.skip(n as int));
    }
}

/// Compares two paths byte by byte.
pub fn place(a: &[u8], b: &[u8]) -> (r: Place)
    ensures
        r == Place::Before <==> path_before(a@, b@),
        r == Place::Same <==> a@ == b@,
        r == Place::After <==> path_before(b@, a@),
{
    let mut i: usize = 0;
    while i < a.len() && i < b.len() && a[i] == b[i]
        invariant
            i <= a@.len(),
            i <= b@.len(),
            forall|k: int| 0 <= k < i ==> a@[k] == b@[k],
        decreases a.len() - i,
    {
        i = i + 1;
    }
    proof {
        lemma_shared_prefix(a@, b@, i as nat);
        lemma_shared_prefix(b@, a@, i as nat);
        lemma_before_irreflexive(a@);
    }
    if i < a.len() {
        if i < b.len() {
            if a[i] < b[i] {
                Place::Before
            } else {
                Place::After
            }
        } else {
            Place::After
        }
    } else if i < b.len() {
        Place::Before
    } else {
        assert(a@ =~= b@);
        Place::Same
    }
}

/// `paths` is in strictly ascending byte order.
pub open spec fn ascending(paths: Seq<Seq<u8>>) -> bool {
    forall|i: int, j: int| 0 <= i < j < paths.len() ==> path_before(paths[i], paths[j])
}

/// One row per path, kept in byte order of the paths.
pub struct PathTable<V> {
    rows: Vec<(Vec<u8>, V)>,
}

impl<V> PathTable<V> {
    /// The paths that have a row, in byte order.
    pub closed spec fn paths(self) -> Seq<Seq<u8>> {
        self.rows@.map_values(|r: (Vec<u8>, V)| r.0@)
    }

    /// The rows, in the order of their paths.
    pub closed spec fn values(self) -> Seq<V> {
        self.rows@.map_values(|r: (Vec<u8>, V)| r.1)
    }

    #[verifier::type_invariant]
    spec fn in_order(self) -> bool {
        ascending(self.paths())
    }
}

/// The table as a function from paths to rows.
pub open spec fn as_map<V>(paths: Seq<Seq<u8>>, values: Seq<V>) -> Map<Seq<u8>, V> {
    Map::new(|p: Seq<u8>| paths.contains(p), |p: Seq<u8>| values[paths.index_of(p)])
}

impl<V> View for PathTable<V> {
    type V = Map<Seq<u8>, V>;

    open spec fn view(&self) -> Map<Seq<u8>, V> {
        as_map(self.paths(), self.values())
    }
}

/// Ascending paths are distinct.
pub proof fn lemma_ascending_distinct(paths: Seq<Seq<u8>>)
    requires
        ascending(paths),
    ensures
        paths.no_duplicates(),
{
    assert forall|i: int, j: int| 0 <= i < j < paths.len() implies paths[i] != paths[j] by {
        assert(path_before(paths[i], paths[j]));
        lemma_before_asymmetric(paths[i], paths[j]);
    }
}

/// Reads the table at the path of its `i`-th row.
pub proof fn lemma_row_of<V>(paths: Seq<Seq<u8>>, values: Seq<V>, i: int)
    requires
        ascending(paths),
        0 <= i < paths.len(),
    ensures
        as_map(paths, values).contains_key(paths[i]),
        as_map(paths, values)[paths[i]] == values[i],
{
    lemma_ascending_distinct(paths);
    assert(paths.contains(paths[i]));
    let k = paths.index_of(paths[i]);
    assert(paths[k] == paths[i]);
}

impl<V> PathTable<V> {
    pub fn new() -> (r: Self)
        ensures
            r@ == Map::<Seq<u8>, V>::empty(),
            r.paths() == Seq::<Seq<u8>>::empty(),
    {
        let r = PathTable { rows: Vec::new() };
        assert(r.paths() =~= Seq::<Seq<u8>>::empty());
        assert(r@ =~= Map::<Seq<u8>, V>::empty());
        r
    }

    /// The paths stand in byte order, each once, with one row beside each.
    pub fn len(&self) -> (n: usize)
        ensures
            n == self.paths().len(),
            n == self.values().len(),
            ascending(self.paths()),
    {
        proof {
            use_type_invariant(self);
        }
        self.rows.len()
    }

    /// The path of the `i`-th row.
    pub fn path(&self, i: usize) -> (p: &Vec<u8>)
        requires
            i < self.paths().len(),
        ensures
            p@ == self.paths()[i as int],
    {
        &self.rows[i].0
    }

    /// The `i`-th row.
    pub fn row(&self, i: usize) -> (v: &V)
        requires
            i < self.paths().len(),
        ensures
            *v == self.values()[i as int],
            self@.contains_key(self.paths()[i as int]),
            *v == self@[self.paths()[i as int]],
    {
        proof {
            use_type_invariant(self);
            lemma_row_of(self.paths(), self.values(), i as int);
        }
        &self.rows[i].1
    }

    /// Position of the first row whose path is not before `path`.
    fn position(&self, path: &[u8]) -> (n: usize)
        ensures
            n <= self.paths().len(),
            forall|k: int| 0 <= k < n ==> path_before(#[trigger] self.paths()[k], path@),
            forall|k: int|
                n <= k < self.paths().len() ==> !path_before(#[trigger] self.paths()[k], path@),
    {
        proof {
            use_type_invariant(self);
        }
        let mut lo: usize = 0;
        let mut hi: usize = self.rows.len();
        while lo < hi
            invariant
                lo <= hi <= self.paths().len(),
                self.paths().len() == self.rows@.len(),
                ascending(self.paths()),
                forall|k: int| 0 <= k < lo ==> path_before(#[trigger] self.paths()[k], path@),
                forall|k: int|
                    hi <= k < self.paths().len() ==> !path_before(
                        #[trigger] self.paths()[k],
                        path@,
                    ),
            decreases hi - lo,
        {
            let mid: usize = lo + (hi - lo) / 2;
            let ghost here = self.paths()[mid as int];
            match place(self.rows[mid].0.as_slice(), path) {
                Place::Before => {
                    assert forall|k: int| 0 <= k < mid + 1 implies path_before(
                        #[trigger] self.paths()[k],
                        path@,
                    ) by {
                        if k < mid {
                            lemma_before_transitive(self.paths()[k], here, path@);
                        }
                    }
                    lo = mid + 1;
                },
                _ => {
                    assert forall|k: int| mid <= k < self.paths().len() implies !path_before(
                        #[trigger] self.paths()[k],
                        path@,
                    ) by {
                        if k > mid && path_before(self.paths()[k], path@) {
                            lemma_before_transitive(here, self.paths()[k], path@);
                        }
                    }
                    hi = mid;
                },
            }
        }
        lo
    }

    /// The row at `path`.
    pub fn get(&self, path: &[u8]) -> (r: Option<&V>)
        ensures
            match r {
                Some(v) => self@.contains_key(path@) && *v == self@[path@],
                None => !self@.contains_key(path@),
            },
    {
        proof {
            use_type_invariant(self);
        }
        let n: usize = self.position(path);
        proof {
            if self.paths().contains(path@) {
                let k = self.paths().index_of(path@);
                lemma_before_irreflexive(path@);
                if n < k {
                    assert(path_before(self.paths()[n as int], self.paths()[k]));
                }
            }
        }
        if n < self.rows.len() {
            match place(self.rows[n].0.as_slice(), path) {
                Place::Same => {
                    proof {
                        lemma_row_of(self.paths(), self.values(), n as int);
                    }
                    return Some(&self.rows[n].1);
                },
                _ => {},
            }
        }
        None
    }

    /// Appends a row whose path comes after every path present. A row out of
    /// order is refused and the table left as it was.
    pub fn push(&mut self, path: Vec<u8>, row: V) -> (accepted: bool)
        ensures
            accepted <==> (forall|k: int|
                0 <= k < old(self).paths().len() ==> path_before(
                    #[trigger] old(self).paths()[k],
                    path@,
                )),
            accepted ==> final(self)@ == old(self)@.insert(path@, row),
            accepted ==> final(self).paths() == old(self).paths().push(path@),
            !accepted ==> *final(self) == *old(self),
    {
        proof {
            use_type_invariant(&*self);
        }
        let n: usize = self.rows.len();
        let ghost before = self.paths();
        if n > 0 {
            match place(self.rows[n - 1].0.as_slice(), path.as_slice()) {
                Place::Before => {
                    assert forall|k: int| 0 <= k < before.len() implies path_before(
                        #[trigger] before[k],
                        path@,
                    ) by {
                        if k < n - 1 {
                            lemma_before_transitive(before[k], before[n - 1], path@);
                        }
                    }
                },
                _ => {
                    assert(!path_before(before[n - 1], path@));
                    return false;
                },
            }
        }
        self.put(n, path, row);
        true
    }

    /// Sets the row at `path`, replacing the one that was there.
    pub fn insert(&mut self, path: Vec<u8>, row: V)
        ensures
            final(self)@ == old(self)@.insert(path@, row),
    {
        proof {
            use_type_invariant(&*self);
        }
        let n: usize = self.position(path.as_slice());
        let mut taken: bool = false;
        if n < self.rows.len() {
            match place(self.rows[n].0.as_slice(), path.as_slice()) {
                Place::Same => {
                    taken = true;
                },
                _ => {},
            }
        }
        if taken {
            let mut rows: Vec<(Vec<u8>, V)> = Vec::new();
            std::mem::swap(&mut rows, &mut self.rows);
            let ghost held = rows@;
            let ghost at = path@;
            rows.set(n, (path, row));
            proof {
                let next = PathTable { rows };
                assert(next.paths() =~= old(self).paths());
                assert(next.values() =~= old(self).values().update(n as int, row));
                lemma_ascending_distinct(next.paths());
                assert(next.paths()[n as int] == at);
                assert forall|p: Seq<u8>| next@.contains_key(p) implies next@[p]
                    == old(self)@.insert(at, row)[p] by {
                    let k = next.paths().index_of(p);
                    if p == at {
                        assert(k == n);
                    } else {
                        assert(k != n);
                    }
                }
                assert(next.paths().contains(at));
                assert(next@ =~= old(self)@.insert(at, row));
            }
            self.rows = rows;
        } else {
            proof {
                let before = self.paths();
                assert forall|k: int| n <= k < before.len() implies path_before(
                    path@,
                    #[trigger] before[k],
                ) by {
                    if k > n {
                        lemma_before_transitive(path@, before[n as int], before[k]);
                    }
                }
            }
            self.put(n, path, row);
        }
    }

    /// Places a row for a new path between its neighbours.
    fn put(&mut self, n: usize, path: Vec<u8>, row: V)
        requires
            n <= old(self).paths().len(),
            forall|k: int| 0 <= k < n ==> path_before(#[trigger] old(self).paths()[k], path@),
            forall|k: int|
                n <= k < old(self).paths().len() ==> path_before(
                    path@,
                    #[trigger] old(self).paths()[k],
                ),
        ensures
            final(self)@ == old(self)@.insert(path@, row),
            final(self).paths() == old(self).paths().insert(n as int, path@),
    {
        proof {
            use_type_invariant(&*self);
        }
        let mut rows: Vec<(Vec<u8>, V)> = Vec::new();
        std::mem::swap(&mut rows, &mut self.rows);
        let ghost at = path@;
        rows.insert(n, (path, row));
        proof {
            let next = PathTable { rows };
            let before = old(self).paths();
            assert(next.paths() =~= before.insert(n as int, at));
            assert(next.values() =~= old(self).values().insert(n as int, row));
            assert forall|i: int, j: int| 0 <= i < j < next.paths().len() implies path_before(
                next.paths()[i],
                next.paths()[j],
            ) by {
                let i0 = if i < n { i } else { i - 1 };
                let j0 = if j < n { j } else { j - 1 };
                if i != n && j != n {
                    assert(path_before(before[i0], before[j0]));
                }
            }
            lemma_ascending_distinct(next.paths());
            lemma_ascending_distinct(before);
            assert(next.paths()[n as int] == at);
            assert forall|p: Seq<u8>| #[trigger]
                next@.contains_key(p) == old(self)@.insert(at, row).contains_key(p) by {
                if before.contains(p) {
                    let k = before.index_of(p);
                    assert(next.paths()[if k < n { k } else { k + 1 }] == p);
                }
                if next.paths().contains(p) && p != at {
                    let k = next.paths().index_of(p);
                    assert(before[if k < n { k } else { k - 1 }] == p);
                }
            }
            assert forall|p: Seq<u8>| next@.contains_key(p) implies next@[p] == old(
                self,
            )@.insert(at, row)[p] by {
                let k = next.paths().index_of(p);
                if p == at {
                    assert(k == n);
                } else {
                    let k0 = if k < n { k } else { k - 1 };
                    assert(before[k0] == p);
                    assert(before.index_of(p) == k0);
                }
            }
            assert(next@ =~= old(self)@.insert(at, row));
        }
        self.rows = rows;
    }
}

/// The table without the rows at paths that `keep` does not name.
pub struct Narrowed<V> {
    pub kept: PathTable<V>,
    /// The paths that lost their row, in byte order.
    pub dropped: Vec<Vec<u8>>,
}

pub open spec fn byte_views(paths: Seq<Vec<u8>>) -> Seq<Seq<u8>> {
    paths.map_values(|p: Vec<u8>| p@)
}

impl<V> PathTable<V> {
    /// Keeps the rows at the paths of another table and drops the rest.
    pub fn narrow<W>(self, keep: &PathTable<W>) -> (r: Narrowed<V>)
        ensures
            r.kept@ == self@.restrict(keep@.dom()),
            r.kept.paths() == self.paths().filter(|p: Seq<u8>| keep@.contains_key(p)),
            byte_views(r.dropped@) == self.paths().filter(
                |p: Seq<u8>| !keep@.contains_key(p),
            ),
    {
        proof {
            use_type_invariant(&self);
        }
        let ghost whole = self@;
        let ghost paths = self.paths();
        let ghost values = self.values();
        let ghost rows0 = self.rows@;
        let ghost lost = |p: Seq<u8>| !keep@.contains_key(p);
        let ghost held = |p: Seq<u8>| keep@.contains_key(p);
        let mut kept: PathTable<V> = PathTable::new();
        let mut dropped: Vec<Vec<u8>> = Vec::new();
        proof {
            reveal(Seq::filter);
            assert(byte_views(dropped@) =~= paths.take(0).filter(lost));
            assert(kept.paths() =~= paths.take(0).filter(held));
        }
        for row in it: self.rows
            invariant
                it.seq() == rows0,
                ascending(paths),
                paths == rows0.map_values(|r: (Vec<u8>, V)| r.0@),
                values == rows0.map_values(|r: (Vec<u8>, V)| r.1),
                whole == as_map(paths, values),
                lost == (|p: Seq<u8>| !keep@.contains_key(p)),
                held == (|p: Seq<u8>| keep@.contains_key(p)),
                kept.paths() == paths.take(it.index()).filter(held),
                forall|p: Seq<u8>| #[trigger]
                    kept.paths().contains(p) <==> paths.take(it.index()).contains(p)
                        && keep@.contains_key(p),
                forall|p: Seq<u8>| #[trigger]
                    kept@.contains_key(p) ==> kept@[p] == whole[p],
                byte_views(dropped@) == paths.take(it.index()).filter(lost),
        {
            let ghost i = it.index();
            let ghost p = paths[i];
            let ghost before = kept.paths();
            proof {
                lemma_row_of(paths, values, i);
                assert(values[i] == row.1);
                assert(paths.take(i + 1) =~= paths.take(i).push(p));
                assert(paths.take(i + 1).drop_last() =~= paths.take(i));
                reveal(Seq::filter);
                assert forall|k: int| 0 <= k < before.len() implies path_before(
                    #[trigger] before[k],
                    p,
                ) by {
                    assert(before.contains(before[k]));
                    let j = paths.take(i).index_of(before[k]);
                    assert(paths[j] == before[k]);
                }
                assert forall|q: Seq<u8>| #[trigger]
                    paths.take(i + 1).contains(q) <==> (paths.take(i).contains(q) || q == p) by {
                    if paths.take(i).contains(q) {
                        let j = paths.take(i).index_of(q);
                        assert(paths.take(i + 1)[j] == q);
                    }
                    assert(paths.take(i + 1)[i] == p);
                    if paths.take(i + 1).contains(q) && q != p {
                        let j = paths.take(i + 1).index_of(q);
                        assert(paths.take(i)[j] == q);
                    }
                }
            }
            let (path, value) = row;
            let ghost dropped0 = dropped@;
            if keep.get(path.as_slice()).is_some() {
                let accepted: bool = kept.push(path, value);
                proof {
                    assert(accepted);
                    assert forall|q: Seq<u8>| #[trigger]
                        kept.paths().contains(q) <==> (before.contains(q) || q == p) by {
                        if before.contains(q) {
                            let j = before.index_of(q);
                            assert(kept.paths()[j] == q);
                        }
                        assert(kept.paths()[before.len() as int] == p);
                        if kept.paths().contains(q) && q != p {
                            let j = kept.paths().index_of(q);
                            assert(before[j] == q);
                        }
                    }
                }
            } else {
                dropped.push(path);
                assert(byte_views(dropped@) =~= byte_views(dropped0).push(p));
            }
            assert forall|q: Seq<u8>| #[trigger]
                kept.paths().contains(q) <==> paths.take(i + 1).contains(q) && keep@.contains_key(
                    q,
                ) by {
                assert(before.contains(q) <==> paths.take(i).contains(q) && keep@.contains_key(q));
            }
        }
        proof {
            assert(paths.take(paths.len() as int) =~= paths);
            assert(kept@ =~= whole.restrict(keep@.dom()));
        }
        Narrowed { kept, dropped }
    }
}

/// Byte order, told by the first place where two paths differ: the smaller byte comes
/// first there, and a path comes before everything that goes on after it.
pub proof fn law_first_difference_decides(a: Seq<u8>, b: Seq<u8>, k: int)
    requires
        0 <= k <= a.len(),
        k <= b.len(),
        forall|i: int| 0 <= i < k ==> a[i] == b[i],
        k < a.len() && k < b.len() ==> a[k] != b[k],
    ensures
        k < a.len() && k < b.len() ==> (path_before(a, b) <==> a[k] < b[k]),
        k == a.len() ==> (path_before(a, b) <==> k < b.len()),
        k == b.len() ==> !path_before(a, b),
{
    lemma_shared_prefix(a, b, k as nat);
    let x = a.skip(k);
    let y = b.skip(k);
    if k < a.len() && k < b.len() {
        assert(x[0] == a[k] && y[0] == b[k]);
    }
}

/// A table is a function from its paths to its rows: it has a row at exactly its
/// paths, and the row at the `i`-th path is the `i`-th row.
pub proof fn law_table_maps_paths_to_rows<V>(paths: Seq<Seq<u8>>, values: Seq<V>, p: Seq<u8>)
    requires
        ascending(paths),
    ensures
        as_map(paths, values).contains_key(p) <==> paths.contains(p),
        forall|i: int|
            0 <= i < paths.len() && paths[i] == p ==> as_map(paths, values)[p] == #[trigger] values[i],
{
    assert forall|i: int| 0 <= i < paths.len() && paths[i] == p implies as_map(paths, values)[p]
        == #[trigger] values[i] by {
        lemma_row_of(paths, values, i);
    }
}

/// Paths show one by one, in order.
pub proof fn law_paths_show_one_by_one(paths: Seq<Vec<u8>>)
    ensures
        byte_views(paths).len() == paths.len(),
        forall|i: int| 0 <= i < paths.len() ==> #[trigger] byte_views(paths)[i] == paths[i]@,
{
}

} // verus!
