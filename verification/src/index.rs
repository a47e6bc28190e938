//! The library's model of an archive's search section: a flat table of
//! path entries, a parallel table of path-list indices, and a table of
//! folder entries carrying each directory's first-child link. Sibling
//! chains are threaded through the index table: a link is a position in
//! `links`, whose value is a row in `paths`; the `INVALID` sentinel
//! terminates a chain.

use vstd::prelude::*;

verus! {

/// Sentinel marking the absence of a link, both as a link position and
/// as a link value.
pub const INVALID: usize = 0xFF_FFFF;

/// One row of the flat path table: one filesystem object known to the
/// index. `next` is the sibling link (a position in the index table, or
/// `INVALID` at the end of a chain).
#[derive(Clone, Copy, PartialEq, Eq, Structural, Debug)]
pub struct PathEntry {
    pub path: u64,
    pub parent: u64,
    pub file_name: u64,
    pub ext: u64,
    pub next: usize,
    pub is_directory: bool,
}

/// One row of the folder table: a directory's full-path hash and the
/// link to its first child (`INVALID` if it has none).
#[derive(Clone, Copy, PartialEq, Eq, Structural, Debug)]
pub struct FolderEntry {
    pub path: u64,
    pub first_child: usize,
}

/// The search section: `paths` and `folders` are keyed by full-path
/// hash; `links` maps link positions to rows of `paths`.
pub struct SearchIndex {
    pub paths: Vec<PathEntry>,
    pub links: Vec<usize>,
    pub folders: Vec<FolderEntry>,
}

impl SearchIndex {
    /// A path hash names at most one object: both hash-keyed tables are
    /// duplicate-free.
    pub open spec fn wf(&self) -> bool {
        &&& forall|i: int, j: int|
            0 <= i < j < self.paths@.len() ==> self.paths@[i].path != self.paths@[j].path
        &&& forall|i: int, j: int|
            0 <= i < j < self.folders@.len() ==> self.folders@[i].path != self.folders@[j].path
    }

    pub open spec fn spec_has_row(&self, h: u64) -> bool {
        exists|k: int| 0 <= k < self.paths@.len() && self.paths@[k].path == h
    }

    /// The row holding the entry for hash `h` (meaningful when
    /// `spec_has_row` holds; under `wf` it is unique).
    pub open spec fn spec_row_of(&self, h: u64) -> int {
        choose|k: int| 0 <= k < self.paths@.len() && self.paths@[k].path == h
    }

    pub open spec fn spec_has_folder(&self, h: u64) -> bool {
        exists|k: int| 0 <= k < self.folders@.len() && self.folders@[k].path == h
    }

    /// The first-child link of the folder entry for hash `h`
    /// (meaningful when `spec_has_folder` holds; unique under `wf`).
    pub open spec fn spec_first_child(&self, h: u64) -> int {
        let k = choose|k: int| 0 <= k < self.folders@.len() && self.folders@[k].path == h;
        self.folders@[k].first_child as int
    }

    /// Decides well-formedness by checking both hash-keyed tables for
    /// duplicates, so an index of unknown provenance can be admitted.
    pub fn check_wf(&self) -> (r: bool)
        ensures
            r == self.wf(),
    {
        let n = self.paths.len();
        let mut i: usize = 0;
        while i < n
            invariant
                i <= n,
                n == self.paths@.len(),
                forall|a: int, b: int|
                    0 <= a < b < self.paths@.len() && a < i ==> self.paths@[a].path
                        != self.paths@[b].path,
            decreases n - i,
        {
            let mut j: usize = i + 1;
            while j < n
                invariant
                    i < j <= n,
                    n == self.paths@.len(),
                    forall|b: int| i < b < j ==> self.paths@[i as int].path != self.paths@[b].path,
                decreases n - j,
            {
                if self.paths[i].path == self.paths[j].path {
                    return false;
                }
                j += 1;
            }
            i += 1;
        }
        let m = self.folders.len();
        let mut i2: usize = 0;
        while i2 < m
            invariant
                i2 <= m,
                m == self.folders@.len(),
                forall|a: int, b: int|
                    0 <= a < b < self.folders@.len() && a < i2 ==> self.folders@[a].path
                        != self.folders@[b].path,
                forall|a: int, b: int|
                    0 <= a < b < self.paths@.len() ==> self.paths@[a].path != self.paths@[
                        b
                    ].path,
            decreases m - i2,
        {
            let mut j2: usize = i2 + 1;
            while j2 < m
                invariant
                    i2 < j2 <= m,
                    m == self.folders@.len(),
                    forall|b: int|
                        i2 < b < j2 ==> self.folders@[i2 as int].path != self.folders@[b].path,
                decreases m - j2,
            {
                if self.folders[i2].path == self.folders[j2].path {
                    return false;
                }
                j2 += 1;
            }
            i2 += 1;
        }
        true
    }

    /// Resolve a full-path hash to its row in the path table.
    pub fn resolve_path_row(&self, h: u64) -> (r: Option<usize>)
        ensures
            match r {
                Some(i) => i < self.paths@.len() && self.paths@[i as int].path == h,
                None => !self.spec_has_row(h),
            },
            r is Some <==> self.spec_has_row(h),
            self.wf() && r is Some ==> r->Some_0 == self.spec_row_of(h),
    {
        let n = self.paths.len();
        let mut i: usize = 0;
        while i < n
            invariant
                i <= n,
                n == self.paths@.len(),
                forall|k: int| 0 <= k < i ==> self.paths@[k].path != h,
            decreases n - i,
        {
            if self.paths[i].path == h {
                proof {
                    assert(self.spec_has_row(h));
                    if self.wf() {
                        let w = self.spec_row_of(h);
                        assert(self.paths@[w].path == h);
                        if w != i {
                            if w < i {
                                assert(self.paths@[w].path != self.paths@[i as int].path);
                            } else {
                                assert(self.paths@[i as int].path != self.paths@[w].path);
                            }
                        }
                    }
                }
                return Some(i);
            }
            i += 1;
        }
        None
    }

    /// Resolve a full-path hash to its row in the folder table.
    pub fn resolve_folder_entry(&self, h: u64) -> (r: Option<FolderEntry>)
        ensures
            match r {
                Some(f) => exists|k: int|
                    0 <= k < self.folders@.len() && self.folders@[k] == f && f.path == h,
                None => !self.spec_has_folder(h),
            },
            r is Some <==> self.spec_has_folder(h),
            self.wf() && r is Some ==> r->Some_0.first_child as int == self.spec_first_child(h),
    {
        let n = self.folders.len();
        let mut i: usize = 0;
        while i < n
            invariant
                i <= n,
                n == self.folders@.len(),
                forall|k: int| 0 <= k < i ==> self.folders@[k].path != h,
            decreases n - i,
        {
            if self.folders[i].path == h {
                proof {
                    assert(self.spec_has_folder(h));
                    if self.wf() {
                        let w = choose|k: int|
                            0 <= k < self.folders@.len() && self.folders@[k].path == h;
                        if w != i {
                            if w < i {
                                assert(self.folders@[w].path != self.folders@[i as int].path);
                            } else {
                                assert(self.folders@[i as int].path != self.folders@[w].path);
                            }
                        }
                    }
                }
                return Some(self.folders[i]);
            }
            i += 1;
        }
        None
    }
}

/// A link position that can be followed: in range, not the sentinel,
/// and holding a row of the path table.
pub open spec fn good_link(s: &SearchIndex, l: int) -> bool {
    &&& l != INVALID
    &&& 0 <= l < s.links@.len()
    &&& s.links@[l] != INVALID
    &&& (s.links@[l] as int) < s.paths@.len()
}

/// `rows` is the sequence of rows visited by following sibling links
/// from `start`, with the chain not necessarily finished: the link
/// leading to each row is `start` for the first, and the previous row's
/// `next` afterwards.
pub open spec fn chain_partial(s: &SearchIndex, start: int, rows: Seq<int>) -> bool
    decreases rows.len(),
{
    if rows.len() == 0 {
        true
    } else {
        let l = if rows.len() == 1 {
            start
        } else {
            s.paths@[rows[rows.len() - 2]].next as int
        };
        &&& chain_partial(s, start, rows.drop_last())
        &&& good_link(s, l)
        &&& s.links@[l] as int == rows.last()
    }
}

/// The link that continues the chain after `rows`.
pub open spec fn end_link(s: &SearchIndex, start: int, rows: Seq<int>) -> int {
    if rows.len() == 0 {
        start
    } else {
        s.paths@[rows.last()].next as int
    }
}

/// `rows` is the complete sibling chain from `start`: it ends at the
/// `INVALID` sentinel.
pub open spec fn chain_ok(s: &SearchIndex, start: int, rows: Seq<int>) -> bool {
    &&& chain_partial(s, start, rows)
    &&& end_link(s, start, rows) == INVALID
}

/// Every row of a partial chain lies inside the path table.
pub proof fn lemma_chain_rows_in_range(s: &SearchIndex, start: int, rows: Seq<int>)
    requires
        chain_partial(s, start, rows),
    ensures
        forall|k: int| 0 <= k < rows.len() ==> 0 <= #[trigger] rows[k] < s.paths@.len(),
    decreases rows.len(),
{
    if rows.len() > 0 {
        lemma_chain_rows_in_range(s, start, rows.drop_last());
        assert(forall|k: int| 0 <= k < rows.len() - 1 ==> rows[k] == rows.drop_last()[k]);
    }
}

/// Two partial chains from the same link agree on their common prefix.
pub proof fn lemma_chain_partial_prefix(s: &SearchIndex, start: int, r1: Seq<int>, r2: Seq<int>)
    requires
        chain_partial(s, start, r1),
        chain_partial(s, start, r2),
        r1.len() <= r2.len(),
    ensures
        r1 == r2.subrange(0, r1.len() as int),
    decreases r2.len(),
{
    if r1.len() < r2.len() {
        lemma_chain_partial_prefix(s, start, r1, r2.drop_last());
        assert(r2.drop_last().subrange(0, r1.len() as int) =~= r2.subrange(0, r1.len() as int));
    } else if r1.len() == 0 {
        assert(r1 =~= r2.subrange(0, 0));
    } else {
        lemma_chain_partial_prefix(s, start, r1.drop_last(), r2.drop_last());
        assert(r1.drop_last() == r2.drop_last().subrange(0, r1.len() - 1));
        assert(r2.drop_last().subrange(0, r1.len() - 1) =~= r2.drop_last());
        let l1 = if r1.len() == 1 {
            start
        } else {
            s.paths@[r1[r1.len() - 2]].next as int
        };
        let l2 = if r2.len() == 1 {
            start
        } else {
            s.paths@[r2[r2.len() - 2]].next as int
        };
        if r1.len() >= 2 {
            assert(r1[r1.len() - 2] == r1.drop_last()[r1.len() - 2]);
            assert(r2[r2.len() - 2] == r2.drop_last()[r2.len() - 2]);
        }
        assert(l1 == l2);
        assert(r1.last() == r2.last());
        assert forall|k: int| 0 <= k < r1.len() implies r1[k] == r2[k] by {
            if k < r1.len() - 1 {
                assert(r1[k] == r1.drop_last()[k]);
                assert(r2[k] == r2.drop_last()[k]);
            } else {
                assert(r1[k] == r1.last());
                assert(r2[k] == r2.last());
            }
        }
        assert(r1 =~= r2.subrange(0, r1.len() as int));
    }
}

/// A complete chain from a link is unique.
pub proof fn lemma_chain_ok_unique(s: &SearchIndex, start: int, r1: Seq<int>, r2: Seq<int>)
    requires
        chain_ok(s, start, r1),
        chain_ok(s, start, r2),
    ensures
        r1 == r2,
{
    if r1.len() <= r2.len() {
        lemma_chain_partial_prefix(s, start, r1, r2);
        if r1.len() < r2.len() {
            // the link after the prefix r1 is both INVALID (it ends r1)
            // and a good link (it leads to r2's next row)
            lemma_chain_mid_link(s, start, r2, r1.len() as int);
            assert(r2.subrange(0, r1.len() as int).len() == r1.len());
            if r1.len() == 0 {
                assert(end_link(s, start, r1) == start);
            } else {
                assert(r1.last() == r2.subrange(0, r1.len() as int).last());
                assert(r1.last() == r2[r1.len() - 1]);
            }
            assert(false);
        } else {
            assert(r2.subrange(0, r1.len() as int) =~= r2);
        }
    } else {
        lemma_chain_partial_prefix(s, start, r2, r1);
        lemma_chain_mid_link(s, start, r1, r2.len() as int);
        if r2.len() == 0 {
            assert(end_link(s, start, r2) == start);
        } else {
            assert(r2.last() == r1.subrange(0, r2.len() as int).last());
            assert(r2.last() == r1[r2.len() - 1]);
        }
        assert(false);
    }
}

/// Inside a partial chain, the link leading to position `k` is good.
pub proof fn lemma_chain_mid_link(s: &SearchIndex, start: int, rows: Seq<int>, k: int)
    requires
        chain_partial(s, start, rows),
        0 <= k < rows.len(),
    ensures
        good_link(
            s,
            if k == 0 {
                start
            } else {
                s.paths@[rows[k - 1]].next as int
            },
        ),
        s.links@[if k == 0 {
            start
        } else {
            s.paths@[rows[k - 1]].next as int
        }] as int == rows[k],
    decreases rows.len(),
{
    if k == rows.len() - 1 {
        if rows.len() >= 2 {
            assert(rows.drop_last()[rows.len() - 2] == rows[rows.len() - 2]);
        }
    } else {
        lemma_chain_mid_link(s, start, rows.drop_last(), k);
        assert(forall|j: int| 0 <= j < rows.len() - 1 ==> rows.drop_last()[j] == rows[j]);
    }
}


/// Positions one step apart after a repeated row stay equal: the link
/// after a row is a function of the row alone.
pub proof fn lemma_chain_shift(s: &SearchIndex, start: int, rows: Seq<int>, i: int, j: int, m: int)
    requires
        chain_partial(s, start, rows),
        0 <= i < j < rows.len(),
        rows[i] == rows[j],
        0 <= m,
        j + m < rows.len(),
    ensures
        rows[i + m] == rows[j + m],
    decreases m,
{
    if m > 0 {
        lemma_chain_shift(s, start, rows, i, j, m - 1);
        lemma_chain_mid_link(s, start, rows, i + m);
        lemma_chain_mid_link(s, start, rows, j + m);
    }
}

/// A complete chain never repeats a row: after a repeat the tail would
/// repeat forever and the chain could not reach the terminator.
pub proof fn lemma_chain_ok_distinct(s: &SearchIndex, start: int, rows: Seq<int>)
    requires
        chain_ok(s, start, rows),
    ensures
        rows.no_duplicates(),
{
    assert forall|i: int, j: int|
        0 <= i < rows.len() && 0 <= j < rows.len() && i != j implies rows[i] != rows[j] by {
        let a = if i < j {
            i
        } else {
            j
        };
        let b = if i < j {
            j
        } else {
            i
        };
        if rows[a] == rows[b] {
            let m = rows.len() - 1 - b;
            lemma_chain_shift(s, start, rows, a, b, m);
            assert(rows[a + m] == rows[rows.len() - 1]);
            lemma_chain_mid_link(s, start, rows, a + m + 1);
            assert(good_link(s, s.paths@[rows[a + m]].next as int));
            assert(s.paths@[rows.last()].next as int == INVALID);
            assert(false);
        }
    }
}

/// Duplicate-free rows of the path table are at most as many as the
/// table has.
pub proof fn lemma_distinct_rows_bounded(s: &SearchIndex, rows: Seq<int>)
    requires
        rows.no_duplicates(),
        forall|k: int| 0 <= k < rows.len() ==> 0 <= #[trigger] rows[k] < s.paths@.len(),
    ensures
        rows.len() <= s.paths@.len(),
{
    rows.unique_seq_to_set();
    assert(rows.to_set() <= vstd::set_lib::set_int_range(0, s.paths@.len() as int)) by {
        assert forall|x: int| rows.to_set().contains(x) implies vstd::set_lib::set_int_range(
            0,
            s.paths@.len() as int,
        ).contains(x) by {
            assert(rows.contains(x));
            let k = choose|k: int| 0 <= k < rows.len() && rows[k] == x;
            assert(0 <= rows[k] < s.paths@.len());
        }
    }
    vstd::set_lib::lemma_int_range(0, s.paths@.len() as int);
    vstd::set_lib::lemma_len_subset(
        rows.to_set(),
        vstd::set_lib::set_int_range(0, s.paths@.len() as int),
    );
}

/// A complete chain of a table with `n` rows has at most `n` rows.
pub proof fn lemma_chain_ok_len(s: &SearchIndex, start: int, rows: Seq<int>)
    requires
        chain_ok(s, start, rows),
    ensures
        rows.len() <= s.paths@.len(),
{
    lemma_chain_ok_distinct(s, start, rows);
    lemma_chain_rows_in_range(s, start, rows);
    lemma_distinct_rows_bounded(s, rows);
}

} // verus!
