//! Depth-bounded traversal of the search section, named-child lookup,
//! and the folder diff engine.

use vstd::prelude::*;

use crate::hashing::{join_hash, join_hashes};
use crate::index::{
    SearchIndex, INVALID, chain_partial, chain_ok, end_link, good_link,
    lemma_chain_partial_prefix, lemma_chain_rows_in_range,
};
use crate::search::{DiskEntry, DiskNode, File, Folder};
use std::collections::HashMap;

verus! {

broadcast use vstd::std_specs::hash::group_hash_axioms;

/// Failures of traversal and diff generation. Every variant is an
/// explicit value-level outcome; none is used for ordinary control
/// flow.
#[derive(Clone, Copy, PartialEq, Eq, Structural, Debug)]
pub enum GenerateError {
    /// The hash or index provided is for a file and not a folder.
    InvalidFolder,
    /// A sibling link points outside the path table, or a chain
    /// revisits a row it already produced.
    InvalidPathIndex,
    /// A hash could not be resolved in the index's tables.
    Lookup,
    /// The diff's source folder does not exist in the index.
    MissingSourceFolder,
    /// A destination path could not be expressed relative to the root.
    InvalidRoot,
}

/// One node of a traversal result: a file row, or a folder row with
/// the entries found below it.
#[derive(Debug)]
pub enum SearchEntry {
    File(usize),
    Folder { path_index: usize, children: Vec<SearchEntry> },
}

/// The mathematical shape of a traversal result.
pub enum EntryModel {
    File { row: int },
    Folder { row: int, children: Seq<EntryModel> },
}

pub open spec fn entry_view(e: SearchEntry) -> EntryModel
    decreases e, 0int,
{
    match e {
        SearchEntry::File(i) => EntryModel::File { row: i as int },
        SearchEntry::Folder { path_index, children } => EntryModel::Folder {
            row: path_index as int,
            children: entries_view(children@, children@.len() as int),
        },
    }
}

pub open spec fn entries_view(vs: Seq<SearchEntry>, n: int) -> Seq<EntryModel>
    decreases vs, n,
{
    if n <= 0 || n > vs.len() {
        Seq::empty()
    } else {
        entries_view(vs, n - 1).push(entry_view(vs[n - 1]))
    }
}

pub open spec fn view_of(vs: Seq<SearchEntry>) -> Seq<EntryModel> {
    entries_view(vs, vs.len() as int)
}

pub open spec fn entry_row(e: EntryModel) -> int {
    match e {
        EntryModel::File { row } => row,
        EntryModel::Folder { row, .. } => row,
    }
}

/// The rows of the top level of a traversal result, in order.
pub open spec fn rows_of(es: Seq<EntryModel>) -> Seq<int> {
    es.map_values(|e: EntryModel| entry_row(e))
}

/// Every row of a traversal result, nested folders included, in
/// left-to-right discovery order.
pub open spec fn all_rows(es: Seq<EntryModel>, n: int) -> Seq<int>
    decreases es, 0int, n,
{
    if n <= 0 || n > es.len() {
        Seq::empty()
    } else {
        all_rows(es, n - 1) + entry_rows(es[n - 1])
    }
}

pub open spec fn entry_rows(e: EntryModel) -> Seq<int>
    decreases e, 0int, 0int,
{
    match e {
        EntryModel::File { row } => seq![row],
        EntryModel::Folder { row, children } => seq![row] + all_rows(
            children,
            children.len() as int,
        ),
    }
}

pub open spec fn rows_all(es: Seq<EntryModel>) -> Seq<int> {
    all_rows(es, es.len() as int)
}

/// A depth limit one level further down.
pub open spec fn depth_dec(d: Option<nat>) -> Option<nat> {
    match d {
        Option::Some(k) => Option::Some((k - 1) as nat),
        Option::None => Option::None,
    }
}

pub open spec fn depth_view(d: Option<usize>) -> Option<nat> {
    match d {
        Option::Some(k) => Option::Some(k as nat),
        Option::None => Option::None,
    }
}

/// `es` is exactly what a traversal from link `start` with the given
/// depth bound finds: at depth zero nothing is visited; otherwise the
/// top-level rows form the complete sibling chain from `start`, and
/// each folder entry's children are in turn a traversal of that
/// folder's own chain, one level deeper.
pub open spec fn entries_ok(
    s: &SearchIndex,
    start: int,
    depth: Option<nat>,
    es: Seq<EntryModel>,
) -> bool
    decreases es, 1int, 0int,
{
    if depth == Option::<nat>::Some(0) {
        es.len() == 0
    } else {
        &&& chain_ok(s, start, rows_of(es))
        &&& entries_list_ok(s, depth, es, es.len() as int)
    }
}

pub open spec fn entries_list_ok(
    s: &SearchIndex,
    depth: Option<nat>,
    es: Seq<EntryModel>,
    n: int,
) -> bool
    decreases es, 0int, n,
{
    if n <= 0 || n > es.len() {
        true
    } else {
        entries_list_ok(s, depth, es, n - 1) && entry_ok(s, depth, es[n - 1])
    }
}

pub open spec fn entry_ok(s: &SearchIndex, depth: Option<nat>, e: EntryModel) -> bool
    decreases e, 0int, 0int,
{
    match e {
        EntryModel::File { row } => {
            &&& 0 <= row < s.paths@.len()
            &&& !s.paths@[row].is_directory
        },
        EntryModel::Folder { row, children } => {
            &&& 0 <= row < s.paths@.len()
            &&& s.paths@[row].is_directory
            &&& s.spec_has_folder(s.paths@[row].path)
            &&& entries_ok(
                s,
                s.spec_first_child(s.paths@[row].path),
                depth_dec(depth),
                children,
            )
        },
    }
}

/// How many rows a visited table has marked so far.
pub open spec fn count_marked(s: Seq<bool>, n: int) -> int
    decreases n,
{
    if n <= 0 {
        0
    } else {
        count_marked(s, n - 1) + if s[n - 1] {
            1int
        } else {
            0int
        }
    }
}

pub proof fn lemma_count_bounds(s: Seq<bool>, n: int)
    ensures
        0 <= count_marked(s, n),
        count_marked(s, n) <= n || n < 0,
    decreases n,
{
    if n > 0 {
        lemma_count_bounds(s, n - 1);
    }
}

pub proof fn lemma_count_update(s: Seq<bool>, i: int, n: int)
    requires
        0 <= i < n <= s.len(),
        !s[i],
    ensures
        count_marked(s.update(i, true), n) == count_marked(s, n) + 1,
    decreases n,
{
    if i == n - 1 {
        lemma_count_agree(s.update(i, true), s, n - 1);
    } else {
        lemma_count_update(s, i, n - 1);
    }
}

pub proof fn lemma_count_agree(s1: Seq<bool>, s2: Seq<bool>, n: int)
    requires
        forall|k: int| 0 <= k < n ==> s1[k] == s2[k],
    ensures
        count_marked(s1, n) == count_marked(s2, n),
    decreases n,
{
    if n > 0 {
        lemma_count_agree(s1, s2, n - 1);
    }
}

pub proof fn lemma_contains_concat(a: Seq<int>, b: Seq<int>, x: int)
    ensures
        (a + b).contains(x) <==> (a.contains(x) || b.contains(x)),
{
    if (a + b).contains(x) {
        let i = choose|i: int| 0 <= i < (a + b).len() && (a + b)[i] == x;
        if i < a.len() {
            assert(a[i] == x);
        } else {
            assert(b[i - a.len()] == x);
        }
    }
    if a.contains(x) {
        let i = choose|i: int| 0 <= i < a.len() && a[i] == x;
        assert((a + b)[i] == x);
    }
    if b.contains(x) {
        let i = choose|i: int| 0 <= i < b.len() && b[i] == x;
        assert((a + b)[a.len() + i] == x);
    }
}

pub proof fn lemma_no_dup_concat(a: Seq<int>, b: Seq<int>)
    requires
        a.no_duplicates(),
        b.no_duplicates(),
        forall|x: int| !(#[trigger] a.contains(x) && b.contains(x)),
    ensures
        (a + b).no_duplicates(),
{
    assert forall|i: int, j: int|
        0 <= i < (a + b).len() && 0 <= j < (a + b).len() && i != j implies (a + b)[i] != (a
        + b)[j] by {
        if i < a.len() && j < a.len() {
        } else if i >= a.len() && j >= a.len() {
            assert((a + b)[i] == b[i - a.len()]);
            assert((a + b)[j] == b[j - a.len()]);
        } else if i < a.len() {
            assert(a.contains(a[i]));
            assert(b.contains(b[j - a.len()]));
        } else {
            assert(a.contains(a[j]));
            assert(b.contains(b[i - a.len()]));
        }
    }
}

/// Prefix congruence: the list check only reads the first `n` entries.
pub proof fn lemma_entries_list_ok_prefix(
    s: &SearchIndex,
    depth: Option<nat>,
    es1: Seq<EntryModel>,
    es2: Seq<EntryModel>,
    n: int,
)
    requires
        n <= es1.len(),
        n <= es2.len(),
        forall|k: int| 0 <= k < n ==> es1[k] == es2[k],
    ensures
        entries_list_ok(s, depth, es1, n) == entries_list_ok(s, depth, es2, n),
    decreases n,
{
    if n > 0 {
        lemma_entries_list_ok_prefix(s, depth, es1, es2, n - 1);
    }
}

/// Prefix congruence for the collected rows.
pub proof fn lemma_all_rows_prefix(es1: Seq<EntryModel>, es2: Seq<EntryModel>, n: int)
    requires
        n <= es1.len(),
        n <= es2.len(),
        forall|k: int| 0 <= k < n ==> es1[k] == es2[k],
    ensures
        all_rows(es1, n) == all_rows(es2, n),
    decreases n,
{
    if n > 0 {
        lemma_all_rows_prefix(es1, es2, n - 1);
    }
}

pub proof fn lemma_entries_view_prefix(vs1: Seq<SearchEntry>, vs2: Seq<SearchEntry>, n: int)
    requires
        n <= vs1.len(),
        n <= vs2.len(),
        forall|k: int| 0 <= k < n ==> vs1[k] == vs2[k],
    ensures
        entries_view(vs1, n) == entries_view(vs2, n),
    decreases n,
{
    if n > 0 {
        lemma_entries_view_prefix(vs1, vs2, n - 1);
    }
}

pub proof fn lemma_entries_view_len(vs: Seq<SearchEntry>, n: int)
    requires
        0 <= n <= vs.len(),
    ensures
        entries_view(vs, n).len() == n,
    decreases n,
{
    if n > 0 {
        lemma_entries_view_len(vs, n - 1);
    }
}

/// Every directory row has a folder entry: the only resolution the
/// traversal performs below its start cannot fail on such an index,
/// so any traversal failure on it is the broken-chain kind.
pub open spec fn folders_complete(s: &SearchIndex) -> bool {
    forall|r: int|
        0 <= r < s.paths@.len() && (#[trigger] s.paths@[r]).is_directory ==> s.spec_has_folder(
            s.paths@[r].path,
        )
}

/// The hash of the literal root marker, which names the root folder
/// without a path-table row of its own.
pub open spec fn root_hash() -> u64 {
    crate::hashing::str_hash("/"@)
}

/// Follows the sibling chain from `start`, recursing into each folder
/// child one level less deep, marking every produced row in `visited`
/// and failing on a broken link or on a row that was already produced.
/// `base` is a snapshot of `visited` as handed in, fixed for the whole
/// call so that the count of unmarked rows can serve as the measure.
fn walk_chain(
    search: &SearchIndex,
    start: usize,
    depth: Option<usize>,
    visited: Vec<bool>,
    base: Ghost<Seq<bool>>,
) -> (r: (Vec<bool>, Result<Vec<SearchEntry>, GenerateError>))
    requires
        search.wf(),
        visited@ == base@,
        visited@.len() == search.paths@.len(),
    ensures
        r.0@.len() == search.paths@.len(),
        match r.1 {
            Result::Ok(out) => {
                let es = view_of(out@);
                let nn = search.paths@.len() as int;
                &&& entries_ok(search, start as int, depth_view(depth), es)
                &&& rows_all(es).no_duplicates()
                &&& forall|x: int|
                    #[trigger] rows_all(es).contains(x) ==> 0 <= x < nn && !base@[x]
                &&& forall|j: int|
                    0 <= j < nn ==> (#[trigger] r.0@[j]) == (base@[j] || rows_all(es).contains(
                        j,
                    ))
                &&& count_marked(r.0@, nn) == count_marked(base@, nn) + rows_all(es).len()
            },
            Result::Err(e) => e == GenerateError::InvalidPathIndex || e == GenerateError::Lookup,
        },
        folders_complete(search) ==> !(r.1 matches Result::Err(e) && e == GenerateError::Lookup),
        (exists|es_w: Seq<EntryModel>|
            {
                &&& entries_ok(search, start as int, depth_view(depth), es_w)
                &&& rows_all(es_w).no_duplicates()
                &&& forall|x: int| #[trigger] rows_all(es_w).contains(x) ==> !base@[x]
            }) ==> r.1 is Ok,
    decreases search.paths@.len() - count_marked(base@, search.paths@.len() as int),
{
    let ghost v0 = base@;
    let ghost hflag = exists|es_w: Seq<EntryModel>|
        {
            &&& entries_ok(search, start as int, depth_view(depth), es_w)
            &&& rows_all(es_w).no_duplicates()
            &&& forall|x: int| #[trigger] rows_all(es_w).contains(x) ==> !v0[x]
        };
    let ghost es_w: Seq<EntryModel> = if hflag {
        choose|es_w: Seq<EntryModel>|
            {
                &&& entries_ok(search, start as int, depth_view(depth), es_w)
                &&& rows_all(es_w).no_duplicates()
                &&& forall|x: int| #[trigger] rows_all(es_w).contains(x) ==> !v0[x]
            }
    } else {
        Seq::empty()
    };
    let ghost nn = search.paths@.len() as int;
    if let Option::Some(d) = depth {
        if d == 0 {
            let out: Vec<SearchEntry> = Vec::new();
            proof {
                assert(view_of(out@) =~= Seq::<EntryModel>::empty());
                assert(rows_all(view_of(out@)) =~= Seq::<int>::empty());
            }
            return (visited, Result::Ok(out));
        }
    }
    let next_depth: Option<usize> = match depth {
        Option::Some(d) => Option::Some(d - 1),
        Option::None => Option::None,
    };
    let mut vis = visited;
    let mut out: Vec<SearchEntry> = Vec::new();
    let mut current: usize = start;
    proof {
        assert(view_of(out@) =~= Seq::<EntryModel>::empty());
        assert(rows_all(view_of(out@)) =~= Seq::<int>::empty());
        assert(rows_of(view_of(out@)) =~= Seq::<int>::empty());
        if hflag {
            assert(view_of(out@) =~= es_w.subrange(0, 0));
        }
    }
    while current != INVALID
        invariant
            search.wf(),
            nn == search.paths@.len(),
            v0 == base@,
            vis@.len() == nn,
            v0.len() == nn,
            depth_view(depth) != Option::<nat>::Some(0),
            depth_view(next_depth) == depth_dec(depth_view(depth)),
            view_of(out@).len() == out@.len(),
            chain_partial(search, start as int, rows_of(view_of(out@))),
            end_link(search, start as int, rows_of(view_of(out@))) == current as int,
            entries_list_ok(
                search,
                depth_view(depth),
                view_of(out@),
                view_of(out@).len() as int,
            ),
            rows_all(view_of(out@)).no_duplicates(),
            forall|x: int|
                #[trigger] rows_all(view_of(out@)).contains(x) ==> 0 <= x < nn && !v0[x],
            forall|j: int|
                0 <= j < nn ==> (#[trigger] vis@[j]) == (v0[j] || rows_all(
                    view_of(out@),
                ).contains(j)),
            count_marked(vis@, nn) == count_marked(v0, nn) + rows_all(view_of(out@)).len(),
            hflag == (exists|es_w0: Seq<EntryModel>|
                {
                    &&& entries_ok(search, start as int, depth_view(depth), es_w0)
                    &&& rows_all(es_w0).no_duplicates()
                    &&& forall|x: int| #[trigger] rows_all(es_w0).contains(x) ==> !v0[x]
                }),
            hflag ==> {
                &&& entries_ok(search, start as int, depth_view(depth), es_w)
                &&& rows_all(es_w).no_duplicates()
                &&& (forall|x: int| #[trigger] rows_all(es_w).contains(x) ==> !v0[x])
                &&& view_of(out@).len() <= es_w.len()
                &&& view_of(out@) == es_w.subrange(0, out@.len() as int)
            },
        decreases nn - count_marked(vis@, nn),
    {
        let ghost es = view_of(out@);
        proof {
            assert(es.len() == out@.len());
        }
        if current >= search.links.len() {
            proof {
                if hflag {
                    broken_chain_proof(search, start as int, rows_of(es), current as int);
                    assert(chain_ok(search, start as int, rows_of(es_w)));
                    assert(false);
                }
            }
            return (vis, Result::Err(GenerateError::InvalidPathIndex));
        }
        let li = search.links[current];
        if li == INVALID || li >= search.paths.len() {
            proof {
                if hflag {
                    broken_chain_proof(search, start as int, rows_of(es), current as int);
                    assert(chain_ok(search, start as int, rows_of(es_w)));
                    assert(false);
                }
            }
            return (vis, Result::Err(GenerateError::InvalidPathIndex));
        }
        if vis[li] {
            proof {
                if hflag {
                    witness_step_proof(
                        search,
                        start as int,
                        depth_view(depth),
                        es_w,
                        es,
                        current as int,
                        li as int,
                    );
                    let i = es.len() as int;
                    witness_entry_rows_proof(es_w, i);
                    assert(entry_rows(es_w[i])[0] == li as int);
                    assert(entry_rows(es_w[i]).contains(li as int));
                    assert(rows_all(es_w).contains(li as int));
                    assert(!v0[li as int]);
                    lemma_all_rows_prefix(es, es_w, i);
                    assert(!rows_all(es).contains(li as int));
                    assert(!vis@[li as int]);
                    assert(false);
                }
            }
            return (vis, Result::Err(GenerateError::InvalidPathIndex));
        }
        let ghost vis_pre = vis@;
        proof {
            assert(good_link(search, current as int));
            assert(vis_pre[li as int] == (v0[li as int] || rows_all(es).contains(li as int)));
            assert(!v0[li as int] && !rows_all(es).contains(li as int));
            lemma_count_update(vis_pre, li as int, nn);
        }
        vis[li] = true;
        let ghost vis_mid = vis@;
        proof {
            assert(vis_mid =~= vis_pre.update(li as int, true));
            assert(count_marked(vis_mid, nn) == count_marked(v0, nn) + rows_all(es).len() + 1);
        }
        let child = search.paths[li];
        proof {
            if hflag {
                witness_step_proof(
                    search,
                    start as int,
                    depth_view(depth),
                    es_w,
                    es,
                    current as int,
                    li as int,
                );
            }
        }
        if child.is_directory {
            match search.resolve_folder_entry(child.path) {
                Option::None => {
                    proof {
                        if folders_complete(search) {
                            assert(search.paths@[li as int].is_directory);
                            assert(search.spec_has_folder(search.paths@[li as int].path));
                            assert(false);
                        }
                        if hflag {
                            let i = es.len() as int;
                            match es_w[i] {
                                EntryModel::File { .. } => {
                                    assert(!search.paths@[li as int].is_directory);
                                },
                                EntryModel::Folder { .. } => {
                                    assert(search.spec_has_folder(search.paths@[li as int].path));
                                },
                            }
                            assert(false);
                        }
                    }
                    return (vis, Result::Err(GenerateError::Lookup));
                },
                Option::Some(fe) => {
                    proof {
                        lemma_count_bounds(vis_mid, nn);
                        lemma_count_bounds(v0, nn);
                        assert(rows_all(es).len() >= 0);
                    }
                    proof {
                        if hflag {
                            let i = es.len() as int;
                            witness_entry_rows_proof(es_w, i);
                            match es_w[i] {
                                EntryModel::File { .. } => {
                                    assert(!search.paths@[li as int].is_directory);
                                    assert(false);
                                },
                                EntryModel::Folder { row: rw, children: cw } => {
                                    assert(rw == li as int);
                                    assert(entry_ok(search, depth_view(depth), es_w[i]));
                                    assert(entries_ok(
                                        search,
                                        search.spec_first_child(
                                            search.paths@[li as int].path,
                                        ),
                                        depth_dec(depth_view(depth)),
                                        cw,
                                    ));
                                    assert(search.spec_first_child(search.paths@[li as int].path)
                                        == fe.first_child as int);
                                    lemma_all_rows_in_range(
                                        search,
                                        fe.first_child as int,
                                        depth_view(next_depth),
                                        cw,
                                        cw.len() as int,
                                    );
                                    let er = entry_rows(es_w[i]);
                                    assert(er == seq![li as int] + rows_all(cw));
                                    lemma_no_dup_split(seq![li as int], rows_all(cw));
                                    lemma_all_rows_prefix(es, es_w, i);
                                    assert forall|x: int|
                                        #[trigger] rows_all(cw).contains(x) implies !vis_mid[x] by {
                                        let kx = choose|kx: int|
                                            0 <= kx < rows_all(cw).len() && rows_all(cw)[kx]
                                                == x;
                                        assert(0 <= x < nn);
                                        lemma_contains_concat(
                                            seq![li as int],
                                            rows_all(cw),
                                            x,
                                        );
                                        assert(er.contains(x));
                                        assert(entry_rows(es_w[i]).contains(x));
                                        assert(rows_all(es_w).contains(x) && !all_rows(
                                            es_w,
                                            i,
                                        ).contains(x));
                                        assert(!v0[x]);
                                        assert(rows_all(es) == all_rows(es_w, i));
                                        assert(!rows_all(es).contains(x));
                                        assert(seq![li as int][0] == li as int);
                                        if x == li as int {
                                            assert(seq![li as int].contains(x));
                                            assert(!(seq![li as int].contains(x) && rows_all(
                                                cw,
                                            ).contains(x)));
                                            assert(false);
                                        }
                                        assert(vis_pre[x] == (v0[x] || rows_all(es).contains(
                                            x,
                                        )));
                                        assert(!vis_pre[x]);
                                    }
                                    assert(entries_ok(
                                        search,
                                        fe.first_child as int,
                                        depth_view(next_depth),
                                        cw,
                                    ));
                                },
                            }
                        }
                    }
                    let rr = walk_chain(search, fe.first_child, next_depth, vis, Ghost(vis_mid));
                    vis = rr.0;
                    match rr.1 {
                        Result::Err(e) => {
                            proof {
                                if hflag {
                                    assert(false);
                                }
                            }
                            return (vis, Result::Err(e));
                        },
                        Result::Ok(children) => {
                            let ghost es_c = view_of(children@);
                            let ghost e_new = EntryModel::Folder {
                                row: li as int,
                                children: es_c,
                            };
                            let ghost rs_new = seq![li as int] + rows_all(es_c);
                            let ghost out_pre = out@;
                            let ghost vis_post = vis@;
                            out.push(SearchEntry::Folder { path_index: li, children });
                            proof {
                                let es2 = view_of(out@);
                                lemma_entries_view_prefix(out@, out_pre, es.len() as int);
                                assert(es2 == entries_view(out@, es.len() as int).push(
                                    entry_view(out@[es.len() as int]),
                                ));
                                assert(entries_view(out_pre, es.len() as int) == es);
                                assert(entry_view(out@[es.len() as int]) == e_new);
                                assert(es2 == es.push(e_new));
                                walk_step_proof(
                                    search,
                                    start as int,
                                    depth_view(depth),
                                    es,
                                    e_new,
                                    current as int,
                                );
                                assert(rows_all(es2) == rows_all(es) + rs_new) by {
                                    assert(es2.len() == es.len() + 1);
                                    assert(es2[es.len() as int] == e_new);
                                    assert(entry_rows(e_new) =~= rs_new);
                                    assert(rows_all(es2) == all_rows(es2, es.len() as int)
                                        + entry_rows(es2[es.len() as int]));
                                    lemma_all_rows_prefix(es2, es, es.len() as int);
                                }
                                walk_merge_proof(
                                    nn,
                                    v0,
                                    vis_pre,
                                    vis_mid,
                                    vis_post,
                                    rows_all(es),
                                    rows_all(es2),
                                    li as int,
                                    rows_all(es_c),
                                );
                                assert(rows_all(es2).len() == rows_all(es).len() + 1 + rows_all(
                                    es_c,
                                ).len());
                                lemma_count_bounds(vis_post, nn);
                                if hflag {
                                    let i = es.len() as int;
                                    match es_w[i] {
                                        EntryModel::File { .. } => {
                                            assert(!search.paths@[li as int].is_directory);
                                            assert(false);
                                        },
                                        EntryModel::Folder { children: cw, .. } => {
                                            lemma_walk_deterministic(
                                                search,
                                                fe.first_child as int,
                                                depth_view(next_depth),
                                                es_c,
                                                cw,
                                            );
                                            assert(e_new == es_w[i]);
                                        },
                                    }
                                    assert(es2 =~= es_w.subrange(0, i + 1));
                                }
                            }
                            current = child.next;
                        },
                    }
                },
            }
        } else {
            let ghost e_new = EntryModel::File { row: li as int };
            let ghost out_pre = out@;
            out.push(SearchEntry::File(li));
            proof {
                let es2 = view_of(out@);
                lemma_entries_view_prefix(out@, out_pre, es.len() as int);
                assert(es2 == entries_view(out@, es.len() as int).push(
                    entry_view(out@[es.len() as int]),
                ));
                assert(entries_view(out_pre, es.len() as int) == es);
                assert(es2 == es.push(e_new));
                walk_step_proof(
                    search,
                    start as int,
                    depth_view(depth),
                    es,
                    e_new,
                    current as int,
                );
                assert(rows_all(es2) == rows_all(es) + (seq![li as int] + Seq::<
                    int,
                >::empty())) by {
                    assert(es2.len() == es.len() + 1);
                    assert(es2[es.len() as int] == e_new);
                    assert(entry_rows(e_new) =~= seq![li as int] + Seq::<int>::empty());
                    assert(rows_all(es2) == all_rows(es2, es.len() as int) + entry_rows(
                        es2[es.len() as int],
                    ));
                    lemma_all_rows_prefix(es2, es, es.len() as int);
                }
                walk_merge_proof(
                    nn,
                    v0,
                    vis_pre,
                    vis_mid,
                    vis_mid,
                    rows_all(es),
                    rows_all(es2),
                    li as int,
                    Seq::<int>::empty(),
                );
                assert(rows_all(es2).len() == rows_all(es).len() + 1);
                lemma_count_bounds(vis_mid, nn);
                if hflag {
                    let i = es.len() as int;
                    match es_w[i] {
                        EntryModel::Folder { .. } => {
                            assert(search.paths@[li as int].is_directory);
                            assert(false);
                        },
                        EntryModel::File { .. } => {
                            assert(e_new == es_w[i]);
                        },
                    }
                    assert(es2 =~= es_w.subrange(0, i + 1));
                }
            }
            current = child.next;
        }
    }
    proof {
        let es = view_of(out@);
        assert(chain_ok(search, start as int, rows_of(es)));
        assert(entries_ok(search, start as int, depth_view(depth), es));
    }
    (vis, Result::Ok(out))
}

/// One step of the chain proof: pushing a fresh entry whose row is the
/// target of the current link extends the partial chain and the list
/// check.
proof fn walk_step_proof(
    s: &SearchIndex,
    start: int,
    depth: Option<nat>,
    es: Seq<EntryModel>,
    e_new: EntryModel,
    current: int,
)
    requires
        chain_partial(s, start, rows_of(es)),
        end_link(s, start, rows_of(es)) == current,
        current != INVALID,
        good_link(s, current),
        s.links@[current] as int == entry_row(e_new),
        entries_list_ok(s, depth, es, es.len() as int),
        depth != Option::<nat>::Some(0),
        entry_ok(s, depth, e_new),
    ensures
        chain_partial(s, start, rows_of(es.push(e_new))),
        end_link(s, start, rows_of(es.push(e_new))) == s.paths@[entry_row(e_new)].next as int,
        entries_list_ok(s, depth, es.push(e_new), es.len() as int + 1),
{
    let es2 = es.push(e_new);
    let rs = rows_of(es);
    let rs2 = rows_of(es2);
    assert(rs2 =~= rs.push(entry_row(e_new)));
    assert(rs2.drop_last() =~= rs);
    assert(rs2.last() == entry_row(e_new));
    if rs.len() > 0 {
        assert(rs2[rs2.len() - 2] == rs.last());
    }
    assert(chain_partial(s, start, rs2));
    lemma_entries_list_ok_prefix(s, depth, es2, es, es.len() as int);
    assert(es2[es.len() as int] == e_new);
    assert(entries_list_ok(s, depth, es2, es.len() as int + 1));
}

/// Merging the bookkeeping of one chain step: marking the fresh row
/// `li` and afterwards the rows of its subtree keeps the produced rows
/// duplicate-free, fresh with respect to the starting marks, and in
/// exact correspondence with the visited table.
proof fn walk_merge_proof(
    nn: int,
    v0: Seq<bool>,
    vis_pre: Seq<bool>,
    vis_mid: Seq<bool>,
    vis_post: Seq<bool>,
    rs: Seq<int>,
    rs2: Seq<int>,
    li: int,
    rows_c: Seq<int>,
)
    requires
        v0.len() == nn,
        vis_pre.len() == nn,
        rs2 == rs + (seq![li] + rows_c),
        0 <= li < nn,
        !vis_pre[li],
        vis_mid == vis_pre.update(li, true),
        forall|j: int| 0 <= j < nn ==> (#[trigger] vis_pre[j]) == (v0[j] || rs.contains(j)),
        rs.no_duplicates(),
        forall|x: int| #[trigger] rs.contains(x) ==> 0 <= x < nn && !v0[x],
        rows_c.no_duplicates(),
        forall|x: int| #[trigger] rows_c.contains(x) ==> 0 <= x < nn && !vis_mid[x],
        vis_post.len() == nn,
        forall|j: int|
            0 <= j < nn ==> (#[trigger] vis_post[j]) == (vis_mid[j] || rows_c.contains(j)),
    ensures
        rs2.no_duplicates(),
        forall|x: int| #[trigger] rs2.contains(x) ==> 0 <= x < nn && !v0[x],
        forall|j: int| 0 <= j < nn ==> (#[trigger] vis_post[j]) == (v0[j] || rs2.contains(j)),
{
    let rs_new = seq![li] + rows_c;
    assert(seq![li].no_duplicates());
    assert forall|x: int| !(#[trigger] seq![li].contains(x) && rows_c.contains(x)) by {
        if seq![li].contains(x) {
            let i = choose|i: int| 0 <= i < seq![li].len() && seq![li][i] == x;
            assert(x == li);
            assert(vis_mid[li]);
        }
    }
    lemma_no_dup_concat(seq![li], rows_c);
    assert forall|x: int| !(#[trigger] rs.contains(x) && rs_new.contains(x)) by {
        if rs.contains(x) {
            lemma_contains_concat(seq![li], rows_c, x);
            assert(vis_pre[x]);
            if rows_c.contains(x) {
                assert(vis_mid[x]);
                assert(false);
            }
            if seq![li].contains(x) {
                assert(x == li);
                assert(false);
            }
        }
    }
    lemma_no_dup_concat(rs, rs_new);
    assert forall|x: int| #[trigger] rs2.contains(x) implies 0 <= x < nn && !v0[x] by {
        lemma_contains_concat(rs, rs_new, x);
        lemma_contains_concat(seq![li], rows_c, x);
        if rs.contains(x) {
        } else if seq![li].contains(x) {
            assert(x == li);
            assert(!v0[li]);
        } else {
            assert(rows_c.contains(x));
            assert(!vis_mid[x]);
            assert(x != li);
            assert(vis_mid[x] == vis_pre[x]);
            assert(!vis_pre[x]);
        }
    }
    assert forall|j: int| 0 <= j < nn implies (#[trigger] vis_post[j]) == (v0[j]
        || rs2.contains(j)) by {
        lemma_contains_concat(rs, rs_new, j);
        lemma_contains_concat(seq![li], rows_c, j);
        if j == li {
            assert(vis_mid[li]);
            assert(vis_post[li]);
            assert(seq![li][0] == li);
            assert(seq![li].contains(li));
            assert(rs_new.contains(li));
            assert(rs2.contains(li));
        } else {
            assert(vis_mid[j] == vis_pre[j]);
        }
    }
}


/// Walks the search section from `folder`, at most `depth` levels deep
/// (`Some(0)` yields nothing at all; `None` walks to the bottom).
/// The literal root marker's hash resolves directly to the root folder
/// entry, which has no path-table row of its own; any other start is
/// resolved to a path entry and must be a directory. A broken link or
/// a sibling chain that revisits a row is a fatal integrity error.
pub fn walk_search_section(
    search: &SearchIndex,
    folder: u64,
    depth: Option<usize>,
) -> (r: Result<Vec<SearchEntry>, GenerateError>)
    requires
        search.wf(),
    ensures
        match r {
            Result::Ok(out) => {
                let es = view_of(out@);
                &&& (depth == Option::<usize>::Some(0) ==> out@.len() == 0)
                &&& (depth != Option::<usize>::Some(0) ==> {
                    &&& search.spec_has_folder(folder)
                    &&& entries_ok(
                        search,
                        search.spec_first_child(folder),
                        depth_view(depth),
                        es,
                    )
                    &&& rows_all(es).no_duplicates()
                })
            },
            Result::Err(e) => {
                &&& (e == GenerateError::InvalidFolder || e == GenerateError::InvalidPathIndex
                    || e == GenerateError::Lookup)
                &&& depth != Option::<usize>::Some(0)
            },
        },
        (r matches Result::Err(e) && e == GenerateError::InvalidFolder) <==> (depth
            != Option::<usize>::Some(0) && folder != root_hash() && search.spec_has_row(folder)
            && !search.paths@[search.spec_row_of(folder)].is_directory),
        depth != Option::<usize>::Some(0) && folder != root_hash() && !search.spec_has_row(
            folder,
        ) ==> r == Result::<Vec<SearchEntry>, GenerateError>::Err(GenerateError::Lookup),
        depth != Option::<usize>::Some(0) && folder == root_hash() && !search.spec_has_folder(
            folder,
        ) ==> r == Result::<Vec<SearchEntry>, GenerateError>::Err(GenerateError::Lookup),
        (depth != Option::<usize>::Some(0) && folders_complete(search) && (folder
            == root_hash() ==> search.spec_has_folder(folder)) && (folder != root_hash()
            ==> search.spec_has_row(folder) && search.paths@[
            search.spec_row_of(folder)
        ].is_directory)) ==> !(r matches Result::Err(e) && e == GenerateError::Lookup),
        ((folder == root_hash() || (search.spec_has_row(folder) && search.paths@[
            search.spec_row_of(folder)
        ].is_directory)) && search.spec_has_folder(folder) && exists|es_w: Seq<EntryModel>|
            {
                &&& entries_ok(
                    search,
                    search.spec_first_child(folder),
                    depth_view(depth),
                    es_w,
                )
                &&& rows_all(es_w).no_duplicates()
            }) ==> r is Ok,
{
    if let Option::Some(d) = depth {
        if d == 0 {
            return Result::Ok(Vec::new());
        }
    }
    let rh = crate::hashing::hash_str("/");
    let first_child: usize;
    if folder == rh {
        match search.resolve_folder_entry(folder) {
            Option::None => {
                return Result::Err(GenerateError::Lookup);
            },
            Option::Some(fe) => {
                first_child = fe.first_child;
            },
        }
    } else {
        match search.resolve_path_row(folder) {
            Option::None => {
                return Result::Err(GenerateError::Lookup);
            },
            Option::Some(i) => {
                if !search.paths[i].is_directory {
                    return Result::Err(GenerateError::InvalidFolder);
                }
                match search.resolve_folder_entry(search.paths[i].path) {
                    Option::None => {
                        return Result::Err(GenerateError::Lookup);
                    },
                    Option::Some(fe) => {
                        first_child = fe.first_child;
                    },
                }
            },
        }
    }
    let n = search.paths.len();
    let mut visited: Vec<bool> = Vec::new();
    let mut i: usize = 0;
    while i < n
        invariant
            i <= n,
            visited@.len() == i,
            forall|k: int| 0 <= k < i ==> !visited@[k],
        decreases n - i,
    {
        visited.push(false);
        i += 1;
    }
    proof {
        assert(search.spec_first_child(folder) == first_child as int);
        if exists|es_w: Seq<EntryModel>|
            {
                &&& entries_ok(
                    search,
                    search.spec_first_child(folder),
                    depth_view(depth),
                    es_w,
                )
                &&& rows_all(es_w).no_duplicates()
            } {
            let w = choose|es_w: Seq<EntryModel>|
                {
                    &&& entries_ok(
                        search,
                        search.spec_first_child(folder),
                        depth_view(depth),
                        es_w,
                    )
                    &&& rows_all(es_w).no_duplicates()
                };
            lemma_all_rows_in_range(
                search,
                first_child as int,
                depth_view(depth),
                w,
                w.len() as int,
            );
            assert forall|x: int| #[trigger] rows_all(w).contains(x) implies !visited@[x] by {
                let kx = choose|kx: int|
                    0 <= kx < rows_all(w).len() && rows_all(w)[kx] == x;
                assert(0 <= x < search.paths@.len());
            }
            assert(entries_ok(search, first_child as int, depth_view(depth), w) && rows_all(
                w,
            ).no_duplicates() && (forall|x: int|
                #[trigger] rows_all(w).contains(x) ==> !visited@[x]));
        }
    }
    let rr = walk_chain(search, first_child, depth, visited, Ghost(visited@));
    match rr.1 {
        Result::Ok(out) => {
            proof {
                assert(search.spec_first_child(folder) == first_child as int);
            }
            Result::Ok(out)
        },
        Result::Err(e) => Result::Err(e),
    }
}

/// Discards folder nesting and returns only the file leaves, in
/// left-to-right discovery order.
pub open spec fn spec_flatten(es: Seq<EntryModel>, n: int) -> Seq<int>
    decreases es, 0int, n,
{
    if n <= 0 || n > es.len() {
        Seq::empty()
    } else {
        spec_flatten(es, n - 1) + entry_files(es[n - 1])
    }
}

pub open spec fn entry_files(e: EntryModel) -> Seq<int>
    decreases e, 0int, 0int,
{
    match e {
        EntryModel::File { row } => seq![row],
        EntryModel::Folder { children, .. } => spec_flatten(children, children.len() as int),
    }
}

pub proof fn lemma_spec_flatten_prefix(es1: Seq<EntryModel>, es2: Seq<EntryModel>, n: int)
    requires
        n <= es1.len(),
        n <= es2.len(),
        forall|k: int| 0 <= k < n ==> es1[k] == es2[k],
    ensures
        spec_flatten(es1, n) == spec_flatten(es2, n),
    decreases n,
{
    if n > 0 {
        lemma_spec_flatten_prefix(es1, es2, n - 1);
    }
}



pub proof fn lemma_entries_view_index(vs: Seq<SearchEntry>, n: int, i: int)
    requires
        0 <= i < n <= vs.len(),
    ensures
        entries_view(vs, n)[i] == entry_view(vs[i]),
        entries_view(vs, n).len() == n,
    decreases n,
{
    lemma_entries_view_len(vs, n);
    if i < n - 1 {
        lemma_entries_view_index(vs, n - 1, i);
    }
}

/// Appends the file rows below `entries` to `out`, dropping folder
/// nesting, in left-to-right discovery order.
fn flatten_into(entries: &Vec<SearchEntry>, out: &mut Vec<usize>)
    ensures
        final(out)@.map_values(|x: usize| x as int) == old(out)@.map_values(
            |x: usize| x as int,
        ) + spec_flatten(view_of(entries@), view_of(entries@).len() as int),
    decreases entries@,
{
    let ghost all = view_of(entries@);
    let ghost base = old(out)@.map_values(|x: usize| x as int);
    proof {
        lemma_entries_view_len(entries@, entries@.len() as int);
        assert(base + spec_flatten(all, 0) =~= base);
    }
    let n = entries.len();
    let mut i: usize = 0;
    while i < n
        invariant
            i <= n,
            n == entries@.len(),
            all == view_of(entries@),
            all.len() == n,
            out@.map_values(|x: usize| x as int) == base + spec_flatten(all, i as int),
        decreases n - i,
    {
        proof {
            lemma_entries_view_index(entries@, entries@.len() as int, i as int);
            assert(all[i as int] == entry_view(entries@[i as int]));
        }
        match &entries[i] {
            SearchEntry::File(row) => {
                let r = *row;
                out.push(r);
                proof {
                    assert(entry_files(all[i as int]) =~= seq![r as int]);
                    assert(out@.map_values(|x: usize| x as int) =~= base + spec_flatten(
                        all,
                        i as int,
                    ) + seq![r as int]);
                    assert(base + spec_flatten(all, i as int + 1) =~= base + spec_flatten(
                        all,
                        i as int,
                    ) + seq![r as int]);
                }
            },
            SearchEntry::Folder { children, .. } => {
                proof {
                    assert(decreases_to!(entries@ => entries@[i as int]));
                }
                flatten_into(children, out);
                proof {
                    assert(entry_files(all[i as int]) == spec_flatten(
                        view_of(children@),
                        view_of(children@).len() as int,
                    ));
                    assert(base + spec_flatten(all, i as int + 1) =~= base + spec_flatten(
                        all,
                        i as int,
                    ) + entry_files(all[i as int]));
                    assert(out@.map_values(|x: usize| x as int) == base + spec_flatten(
                        all,
                        i as int + 1,
                    ));
                }
            },
        }
        i += 1;
    }
}

/// Discards folder nesting and returns only the file rows, in
/// left-to-right discovery order.
pub fn flatten_entries(entries: &Vec<SearchEntry>) -> (out: Vec<usize>)
    ensures
        out@.map_values(|x: usize| x as int) == spec_flatten(
            view_of(entries@),
            view_of(entries@).len() as int,
        ),
{
    let mut out: Vec<usize> = Vec::new();
    proof {
        assert(out@.map_values(|x: usize| x as int) =~= Seq::<int>::empty());
    }
    flatten_into(entries, &mut out);
    proof {
        assert(Seq::<int>::empty() + spec_flatten(
            view_of(entries@),
            view_of(entries@).len() as int,
        ) =~= spec_flatten(view_of(entries@), view_of(entries@).len() as int));
    }
    out
}


/// A sibling chain from link `fc` reaches a row whose name hash is
/// `name`.
pub open spec fn has_named_child(s: &SearchIndex, fc: int, name: u64) -> bool {
    exists|rows: Seq<int>|
        chain_partial(s, fc, rows) && rows.len() > 0 && 0 <= rows.last() < s.paths@.len()
            && s.paths@[rows.last()].file_name == name
}

/// Row `ci` is the first entry of the sibling chain from `fc` whose
/// name hash is `name`: a partial chain ends at it and no earlier row
/// of that chain carries the name.
pub open spec fn first_named_child(s: &SearchIndex, fc: int, name: u64, ci: int) -> bool {
    exists|rows: Seq<int>|
        {
            &&& chain_partial(s, fc, rows)
            &&& rows.len() > 0
            &&& rows.last() == ci
            &&& 0 <= ci < s.paths@.len()
            &&& s.paths@[ci].file_name == name
            &&& forall|k: int|
                0 <= k < rows.len() - 1 ==> s.paths@[#[trigger] rows[k]].file_name != name
        }
}

/// The destination `dst` exists in the index as a directory and has a
/// direct child named `name`.
pub open spec fn spec_present(s: &SearchIndex, dst: u64, name: u64) -> bool {
    &&& s.spec_has_row(dst)
    &&& s.paths@[s.spec_row_of(dst)].is_directory
    &&& s.spec_has_folder(dst)
    &&& has_named_child(s, s.spec_first_child(dst), name)
}

/// Scans the direct children of the row `parent`, one level only, and
/// returns the row of the child whose name hash is `child`, or `None`
/// when the chain ends without a match. A returned row is the first
/// match within this parent's own chain; `None` comes only off a
/// finished chain, and a chain broken before any match is a fatal
/// integrity error, never a silent absence.
pub fn get_direct_child(search: &SearchIndex, parent: usize, child: u64) -> (r: Result<
    Option<usize>,
    GenerateError,
>)
    requires
        search.wf(),
        parent < search.paths@.len(),
    ensures
        match r {
            Result::Ok(o) => {
                &&& search.paths@[parent as int].is_directory
                &&& search.spec_has_folder(search.paths@[parent as int].path)
                &&& (o is Some <==> has_named_child(
                    search,
                    search.spec_first_child(search.paths@[parent as int].path),
                    child,
                ))
                &&& (o matches Option::Some(ci) ==> ci < search.paths@.len()
                    && search.paths@[ci as int].file_name == child && first_named_child(
                    search,
                    search.spec_first_child(search.paths@[parent as int].path),
                    child,
                    ci as int,
                ))
                &&& (o is None ==> exists|rows: Seq<int>|
                    chain_ok(
                        search,
                        search.spec_first_child(search.paths@[parent as int].path),
                        rows,
                    ))
            },
            Result::Err(e) => e == GenerateError::InvalidFolder || e == GenerateError::Lookup
                || e == GenerateError::InvalidPathIndex,
        },
        (r matches Result::Err(e) && e == GenerateError::InvalidFolder) <==> !search.paths@[
            parent as int
        ].is_directory,
        (r matches Result::Err(e) && e == GenerateError::Lookup) <==> (search.paths@[
            parent as int
        ].is_directory && !search.spec_has_folder(search.paths@[parent as int].path)),
        (r matches Result::Err(e) && e == GenerateError::InvalidPathIndex) ==> (!(exists|
            rows: Seq<int>,
        |
            chain_ok(
                search,
                search.spec_first_child(search.paths@[parent as int].path),
                rows,
            )) && !has_named_child(
            search,
            search.spec_first_child(search.paths@[parent as int].path),
            child,
        )),
        (search.paths@[parent as int].is_directory && search.spec_has_folder(
            search.paths@[parent as int].path,
        ) && (has_named_child(
            search,
            search.spec_first_child(search.paths@[parent as int].path),
            child,
        ) || exists|rows: Seq<int>|
            chain_ok(
                search,
                search.spec_first_child(search.paths@[parent as int].path),
                rows,
            ))) ==> r is Ok,
{
    let folder = search.paths[parent];
    if !folder.is_directory {
        return Result::Err(GenerateError::InvalidFolder);
    }
    let fe = match search.resolve_folder_entry(folder.path) {
        Option::None => {
            return Result::Err(GenerateError::Lookup);
        },
        Option::Some(fe) => fe,
    };
    let ghost fc = search.spec_first_child(folder.path);
    let mut current: usize = fe.first_child;
    let mut steps: usize = 0;
    let n = search.paths.len();
    let ghost mut rows: Seq<int> = Seq::empty();
    while current != INVALID
        invariant
            search.wf(),
            n == search.paths@.len(),
            fc == search.spec_first_child(search.paths@[parent as int].path),
            parent < n,
            search.paths@[parent as int].is_directory,
            search.spec_has_folder(search.paths@[parent as int].path),
            chain_partial(search, fc, rows),
            end_link(search, fc, rows) == current as int,
            steps == rows.len(),
            steps <= n,
            forall|k: int|
                0 <= k < rows.len() ==> search.paths@[#[trigger] rows[k]].file_name != child,
            forall|k: int| 0 <= k < rows.len() ==> 0 <= #[trigger] rows[k] < n,
        decreases n - steps,
    {
        if current >= search.links.len() {
            proof {
                broken_chain_proof(search, fc, rows, current as int);
                broken_chain_no_named(search, fc, child, rows, current as int);
            }
            return Result::Err(GenerateError::InvalidPathIndex);
        }
        let li = search.links[current];
        if li == INVALID || li >= n {
            proof {
                broken_chain_proof(search, fc, rows, current as int);
                broken_chain_no_named(search, fc, child, rows, current as int);
            }
            return Result::Err(GenerateError::InvalidPathIndex);
        }
        let ghost rows2 = rows.push(li as int);
        proof {
            assert(rows2.drop_last() =~= rows);
            if rows.len() > 0 {
                assert(rows2[rows2.len() - 2] == rows.last());
            }
            assert(good_link(search, current as int));
            assert(chain_partial(search, fc, rows2));
        }
        let p = search.paths[li];
        if p.file_name == child {
            proof {
                assert(rows2.last() == li as int);
                assert(forall|k: int|
                    0 <= k < rows2.len() - 1 ==> rows2[k] == #[trigger] rows[k]);
                rows = rows2;
                assert(has_named_child(
                    search,
                    search.spec_first_child(search.paths@[parent as int].path),
                    child,
                ));
                assert(first_named_child(
                    search,
                    search.spec_first_child(search.paths@[parent as int].path),
                    child,
                    li as int,
                ));
            }
            return Result::Ok(Option::Some(li));
        }
        if steps >= n {
            proof {
                if exists|full: Seq<int>| chain_ok(search, fc, full) {
                    let full = choose|full: Seq<int>| chain_ok(search, fc, full);
                    lemma_partial_of_complete(search, fc, full, rows2);
                    crate::index::lemma_chain_ok_len(search, fc, full);
                    assert(rows2.len() == n + 1);
                    assert(false);
                }
                if has_named_child(search, fc, child) {
                    lemma_first_match_bounded(search, fc, child);
                    let m = choose|m: Seq<int>|
                        {
                            &&& chain_partial(search, fc, m)
                            &&& m.len() > 0
                            &&& m.len() <= search.paths@.len()
                            &&& 0 <= m.last() < search.paths@.len()
                            &&& search.paths@[m.last()].file_name == child
                            &&& forall|k: int|
                                0 <= k < m.len() - 1 ==> search.paths@[#[trigger] m[k]].file_name
                                    != child
                        };
                    lemma_chain_partial_prefix(search, fc, m, rows2);
                    assert(m.last() == rows2.subrange(0, m.len() as int).last());
                    assert(m.last() == rows2[m.len() - 1]);
                    assert(forall|k: int|
                        0 <= k < rows.len() ==> rows2[k] == #[trigger] rows[k]);
                    assert(rows2.last() == li as int);
                    assert(false);
                }
            }
            return Result::Err(GenerateError::InvalidPathIndex);
        }
        proof {
            rows = rows2;
        }
        steps += 1;
        current = p.next;
    }
    proof {
        // the chain is complete and no row in it carries the name, so
        // any partial chain ending in such a row would have to extend
        // past the terminator
        assert(chain_ok(search, fc, rows));
        if has_named_child(search, fc, child) {
            let other = choose|o: Seq<int>|
                chain_partial(search, fc, o) && o.len() > 0 && 0 <= o.last()
                    < search.paths@.len() && search.paths@[o.last()].file_name == child;
            lemma_partial_of_complete(search, fc, rows, other);
            assert(other.last() == rows[other.len() - 1]);
            assert(false);
        }
    }
    Result::Ok(Option::None)
}



/// Under a traversal witness, the row that the current link yields is
/// the witness's next top-level entry.
proof fn witness_step_proof(
    s: &SearchIndex,
    start: int,
    depth: Option<nat>,
    es_w: Seq<EntryModel>,
    es: Seq<EntryModel>,
    current: int,
    li: int,
)
    requires
        entries_ok(s, start, depth, es_w),
        depth != Option::<nat>::Some(0),
        es == es_w.subrange(0, es.len() as int),
        es.len() <= es_w.len(),
        chain_partial(s, start, rows_of(es)),
        end_link(s, start, rows_of(es)) == current,
        current != INVALID,
        good_link(s, current),
        s.links@[current] as int == li,
    ensures
        es.len() < es_w.len(),
        entry_row(es_w[es.len() as int]) == li,
        entry_ok(s, depth, es_w[es.len() as int]),
{
    let full = rows_of(es_w);
    assert(chain_ok(s, start, full));
    let rows2 = rows_of(es).push(li);
    assert(rows2.drop_last() =~= rows_of(es));
    if rows_of(es).len() > 0 {
        assert(rows2[rows2.len() - 2] == rows_of(es).last());
    }
    assert(chain_partial(s, start, rows2));
    lemma_partial_of_complete(s, start, full, rows2);
    assert(rows2.len() <= full.len());
    assert(rows2.last() == full.subrange(0, rows2.len() as int).last());
    assert(li == full[es.len() as int]);
    lemma_entries_list_ok_index(s, depth, es_w, es_w.len() as int, es.len() as int);
}


/// Every row of a traversal result lies inside the path table.
pub proof fn lemma_all_rows_in_range(
    s: &SearchIndex,
    start: int,
    depth: Option<nat>,
    es: Seq<EntryModel>,
    n: int,
)
    requires
        entries_ok(s, start, depth, es),
        0 <= n <= es.len(),
    ensures
        forall|k: int|
            0 <= k < all_rows(es, n).len() ==> 0 <= #[trigger] all_rows(es, n)[k]
                < s.paths@.len(),
    decreases es, n,
{
    if depth == Option::<nat>::Some(0) {
        assert(all_rows(es, n) =~= Seq::<int>::empty());
    } else if n > 0 {
        lemma_all_rows_in_range(s, start, depth, es, n - 1);
        lemma_entries_list_ok_index(s, depth, es, es.len() as int, n - 1);
        assert(all_rows(es, n) == all_rows(es, n - 1) + entry_rows(es[n - 1]));
        match es[n - 1] {
            EntryModel::File { row } => {
                assert(entry_rows(es[n - 1]) =~= seq![row]);
            },
            EntryModel::Folder { row, children } => {
                assert(decreases_to!(es => es[n - 1]));
                lemma_all_rows_in_range(
                    s,
                    s.spec_first_child(s.paths@[row].path),
                    depth_dec(depth),
                    children,
                    children.len() as int,
                );
                assert(entry_rows(es[n - 1]) == seq![row] + all_rows(
                    children,
                    children.len() as int,
                ));
                assert forall|k: int|
                    0 <= k < entry_rows(es[n - 1]).len() implies 0 <= #[trigger] entry_rows(
                    es[n - 1],
                )[k] < s.paths@.len() by {
                    if k > 0 {
                        assert(entry_rows(es[n - 1])[k] == all_rows(
                            children,
                            children.len() as int,
                        )[k - 1]);
                    }
                }
            },
        }
    }
}

/// The rows one witness entry contributes are fresh against everything
/// the walk has produced before it, and duplicate-free.
proof fn witness_entry_rows_proof(es_w: Seq<EntryModel>, i: int)
    requires
        rows_all(es_w).no_duplicates(),
        0 <= i < es_w.len(),
    ensures
        entry_rows(es_w[i]).no_duplicates(),
        forall|x: int|
            #[trigger] entry_rows(es_w[i]).contains(x) ==> rows_all(es_w).contains(x)
                && !all_rows(es_w, i).contains(x),
{
    let er = entry_rows(es_w[i]);
    let n = es_w.len() as int;
    lemma_all_rows_split(es_w, i, n);
    lemma_suffix_head(es_w, i, n);
    assert(rows_all(es_w) == all_rows(es_w, i) + (er + suffix_rows(es_w, i + 1, n)));
    lemma_no_dup_split(all_rows(es_w, i), er + suffix_rows(es_w, i + 1, n));
    lemma_no_dup_split(er, suffix_rows(es_w, i + 1, n));
    assert forall|x: int|
        #[trigger] er.contains(x) implies rows_all(es_w).contains(x) && !all_rows(
        es_w,
        i,
    ).contains(x) by {
        lemma_contains_concat(er, suffix_rows(es_w, i + 1, n), x);
        lemma_contains_concat(all_rows(es_w, i), er + suffix_rows(es_w, i + 1, n), x);
    }
}


/// Wherever a chain reaches a named row at all, it reaches a first
/// one, through a duplicate-free prefix no longer than the table: any
/// repeat before the first match would repeat the whole tail and put
/// an earlier match before it.
pub proof fn lemma_first_match_bounded(s: &SearchIndex, fc: int, name: u64)
    requires
        has_named_child(s, fc, name),
    ensures
        exists|rows: Seq<int>|
            {
                &&& chain_partial(s, fc, rows)
                &&& rows.len() > 0
                &&& rows.len() <= s.paths@.len()
                &&& 0 <= rows.last() < s.paths@.len()
                &&& s.paths@[rows.last()].file_name == name
                &&& forall|k: int|
                    0 <= k < rows.len() - 1 ==> s.paths@[#[trigger] rows[k]].file_name != name
            },
{
    let p0 = choose|rows: Seq<int>|
        chain_partial(s, fc, rows) && rows.len() > 0 && 0 <= rows.last() < s.paths@.len()
            && s.paths@[rows.last()].file_name == name;
    lemma_minimize_match(s, fc, name, p0);
    let m = choose|rows: Seq<int>|
        {
            &&& chain_partial(s, fc, rows)
            &&& rows.len() > 0
            &&& 0 <= rows.last() < s.paths@.len()
            &&& s.paths@[rows.last()].file_name == name
            &&& forall|k: int|
                0 <= k < rows.len() - 1 ==> s.paths@[#[trigger] rows[k]].file_name != name
        };
    lemma_chain_rows_in_range(s, fc, m);
    assert(m.no_duplicates()) by {
        assert forall|i: int, j: int|
            0 <= i < m.len() && 0 <= j < m.len() && i != j implies m[i] != m[j] by {
            let a = if i < j {
                i
            } else {
                j
            };
            let b = if i < j {
                j
            } else {
                i
            };
            if m[a] == m[b] {
                crate::index::lemma_chain_shift(s, fc, m, a, b, m.len() - 1 - b);
                assert(m[a + (m.len() - 1 - b)] == m[m.len() - 1]);
                assert(s.paths@[m[a + (m.len() - 1 - b)]].file_name == name);
                assert(false);
            }
        }
    }
    crate::index::lemma_distinct_rows_bounded(s, m);
}

/// Cuts a named-row chain down to its first match.
proof fn lemma_minimize_match(s: &SearchIndex, fc: int, name: u64, p: Seq<int>)
    requires
        chain_partial(s, fc, p),
        p.len() > 0,
        0 <= p.last() < s.paths@.len(),
        s.paths@[p.last()].file_name == name,
    ensures
        exists|rows: Seq<int>|
            {
                &&& chain_partial(s, fc, rows)
                &&& rows.len() > 0
                &&& 0 <= rows.last() < s.paths@.len()
                &&& s.paths@[rows.last()].file_name == name
                &&& forall|k: int|
                    0 <= k < rows.len() - 1 ==> s.paths@[#[trigger] rows[k]].file_name != name
            },
    decreases p.len(),
{
    if exists|k: int| 0 <= k < p.len() - 1 && s.paths@[#[trigger] p[k]].file_name == name {
        let k = choose|k: int| 0 <= k < p.len() - 1 && s.paths@[#[trigger] p[k]].file_name == name;
        lemma_chain_partial_take(s, fc, p, k + 1);
        let q = p.subrange(0, k + 1);
        lemma_chain_rows_in_range(s, fc, p);
        assert(q.last() == p[k]);
        lemma_minimize_match(s, fc, name, q);
    } else {
        assert(chain_partial(s, fc, p) && p.len() > 0 && 0 <= p.last() < s.paths@.len()
            && s.paths@[p.last()].file_name == name && (forall|k: int|
            0 <= k < p.len() - 1 ==> s.paths@[#[trigger] p[k]].file_name != name));
    }
}


/// With no match so far and the chain stuck at a bad link, no match
/// is reachable at all: any named-row chain would have to extend this
/// partial one through the bad link.
proof fn broken_chain_no_named(
    s: &SearchIndex,
    fc: int,
    name: u64,
    rows: Seq<int>,
    current: int,
)
    requires
        chain_partial(s, fc, rows),
        end_link(s, fc, rows) == current,
        current != INVALID,
        !good_link(s, current),
        forall|k: int|
            0 <= k < rows.len() ==> s.paths@[#[trigger] rows[k]].file_name != name,
    ensures
        !has_named_child(s, fc, name),
{
    if has_named_child(s, fc, name) {
        let m = choose|m: Seq<int>|
            chain_partial(s, fc, m) && m.len() > 0 && 0 <= m.last() < s.paths@.len()
                && s.paths@[m.last()].file_name == name;
        if m.len() <= rows.len() {
            lemma_chain_partial_prefix(s, fc, m, rows);
            assert(m.last() == rows.subrange(0, m.len() as int).last());
            assert(m.last() == rows[m.len() - 1]);
            assert(false);
        } else {
            lemma_chain_partial_prefix(s, fc, rows, m);
            crate::index::lemma_chain_mid_link(s, fc, m, rows.len() as int);
            if rows.len() == 0 {
                assert(good_link(s, fc));
            } else {
                assert(rows.last() == m.subrange(0, rows.len() as int).last());
                assert(rows.last() == m[rows.len() - 1]);
                assert(good_link(s, s.paths@[m[rows.len() - 1]].next as int));
            }
            assert(false);
        }
    }
}

/// At a broken or out-of-range link no complete chain can continue:
/// a complete chain extending the partial one would make this link
/// good.
proof fn broken_chain_proof(s: &SearchIndex, fc: int, rows: Seq<int>, current: int)
    requires
        chain_partial(s, fc, rows),
        end_link(s, fc, rows) == current,
        current != INVALID,
        !good_link(s, current),
    ensures
        !exists|full: Seq<int>| chain_ok(s, fc, full),
{
    if exists|full: Seq<int>| chain_ok(s, fc, full) {
        let full = choose|full: Seq<int>| chain_ok(s, fc, full);
        lemma_partial_of_complete(s, fc, full, rows);
        if rows.len() == full.len() {
            assert(rows =~= full.subrange(0, full.len() as int) && full.subrange(
                0,
                full.len() as int,
            ) =~= full);
            assert(end_link(s, fc, full) == INVALID);
            assert(false);
        } else {
            crate::index::lemma_chain_mid_link(s, fc, full, rows.len() as int);
            if rows.len() == 0 {
                assert(good_link(s, fc));
            } else {
                assert(rows.last() == full.subrange(0, rows.len() as int).last());
                assert(rows.last() == full[rows.len() - 1]);
                assert(good_link(s, s.paths@[full[rows.len() - 1]].next as int));
            }
            assert(false);
        }
    }
}

/// A partial chain is a prefix of any complete chain from the same
/// link.
pub proof fn lemma_partial_of_complete(s: &SearchIndex, start: int, full: Seq<int>, part: Seq<
    int,
>)
    requires
        chain_ok(s, start, full),
        chain_partial(s, start, part),
    ensures
        part.len() <= full.len(),
        part == full.subrange(0, part.len() as int),
{
    if part.len() <= full.len() {
        lemma_chain_partial_prefix(s, start, part, full);
    } else {
        lemma_chain_partial_prefix(s, start, full, part);
        crate::index::lemma_chain_mid_link(s, start, part, full.len() as int);
        if full.len() == 0 {
            assert(end_link(s, start, full) == start);
        } else {
            assert(full.last() == part.subrange(0, full.len() as int).last());
            assert(full.last() == part[full.len() - 1]);
        }
        assert(false);
    }
}

/// Resolves the parent by hash first, then scans its direct children
/// for the given name hash: pure delegation after the resolution.
pub fn get_direct_child_from_parent_hash(search: &SearchIndex, parent: u64, child: u64) -> (r:
    Result<Option<usize>, GenerateError>)
    requires
        search.wf(),
    ensures
        !search.spec_has_row(parent) ==> r == Result::<
            Option<usize>,
            GenerateError,
        >::Err(GenerateError::Lookup),
        search.spec_has_row(parent) ==> {
            let pr = search.spec_row_of(parent);
            let fc = search.spec_first_child(search.paths@[pr].path);
            &&& ((r matches Result::Err(e) && e == GenerateError::InvalidFolder)
                <==> !search.paths@[pr].is_directory)
            &&& ((r matches Result::Err(e) && e == GenerateError::Lookup) <==> (search.paths@[
                pr
            ].is_directory && !search.spec_has_folder(search.paths@[pr].path)))
            &&& ((r matches Result::Err(e) && e == GenerateError::InvalidPathIndex)
                ==> !exists|rows: Seq<int>| chain_ok(search, fc, rows))
            &&& (search.paths@[pr].is_directory && search.spec_has_folder(
                search.paths@[pr].path,
            ) && (exists|rows: Seq<int>| chain_ok(search, fc, rows)) ==> r is Ok)
            &&& match r {
                Result::Ok(o) => {
                    &&& search.paths@[pr].is_directory
                    &&& search.spec_has_folder(search.paths@[pr].path)
                    &&& (o is Some <==> has_named_child(search, fc, child))
                    &&& (o matches Option::Some(ci) ==> ci < search.paths@.len()
                        && search.paths@[ci as int].file_name == child && first_named_child(
                        search,
                        fc,
                        child,
                        ci as int,
                    ))
                    &&& (o is None ==> exists|rows: Seq<int>| chain_ok(search, fc, rows))
                },
                Result::Err(e) => e == GenerateError::InvalidFolder || e
                    == GenerateError::Lookup || e == GenerateError::InvalidPathIndex,
            }
        },
{
    let path_index = match search.resolve_path_row(parent) {
        Option::None => {
            return Result::Err(GenerateError::Lookup);
        },
        Option::Some(i) => i,
    };
    let r = get_direct_child(search, path_index, child);
    proof {
        assert(path_index as int == search.spec_row_of(parent));
        if (r matches Result::Err(e) && e == GenerateError::InvalidPathIndex) {
            assert(search.paths@[path_index as int].is_directory);
        }
    }
    r
}


/// The missing entries that the diff of one traversal level yields:
/// a file child is reported unless the destination already has a
/// same-named direct child; a folder child recurses unconditionally,
/// with the destination path and the ancestor chain extended by the
/// child's name.
pub open spec fn spec_diff_list(
    s: &SearchIndex,
    es: Seq<EntryModel>,
    n: int,
    dst: u64,
    parent: Folder,
) -> Seq<(u64, File)>
    decreases es, 0int, n,
{
    if n <= 0 || n > es.len() {
        Seq::empty()
    } else {
        spec_diff_list(s, es, n - 1, dst, parent) + spec_diff_entry(s, es[n - 1], dst, parent)
    }
}

pub open spec fn spec_diff_entry(s: &SearchIndex, e: EntryModel, dst: u64, parent: Folder) -> Seq<
    (u64, File),
>
    decreases e, 0int, 0int,
{
    match e {
        EntryModel::File { row } => {
            let fname = s.paths@[row].file_name;
            if spec_present(s, dst, fname) {
                Seq::empty()
            } else {
                seq![
                    (
                        s.paths@[row].path,
                        File {
                            full_path: join_hash(parent.full_path, fname),
                            file_name: fname,
                            parent: parent,
                            extension: s.paths@[row].ext,
                        },
                    ),
                ]
            }
        },
        EntryModel::Folder { row, children } => {
            let fname = s.paths@[row].file_name;
            let dst_name = join_hash(dst, fname);
            let next_parent = Folder {
                full_path: dst_name,
                name: Option::Some(fname),
                parent: Option::Some(Box::new(parent)),
            };
            spec_diff_list(s, children, children.len() as int, dst_name, next_parent)
        },
    }
}

pub proof fn lemma_entries_list_ok_index(
    s: &SearchIndex,
    depth: Option<nat>,
    es: Seq<EntryModel>,
    n: int,
    i: int,
)
    requires
        entries_list_ok(s, depth, es, n),
        0 <= i < n <= es.len(),
    ensures
        entry_ok(s, depth, es[i]),
    decreases n,
{
    if i < n - 1 {
        lemma_entries_list_ok_index(s, depth, es, n - 1, i);
    }
}

/// Diffs one traversal level against `dst`, appending the missing
/// entries to `out`. `parent` is the destination folder context whose
/// chain each reported file carries.
fn compare_folders_impl(
    search: &SearchIndex,
    entries: &Vec<SearchEntry>,
    dst: u64,
    parent: &Folder,
    out: &mut Vec<(u64, File)>,
) -> (r: Result<(), GenerateError>)
    requires
        search.wf(),
        entries_list_ok(
            search,
            Option::<nat>::None,
            view_of(entries@),
            view_of(entries@).len() as int,
        ),
    ensures
        match r {
            Result::Ok(u) => final(out)@ == old(out)@ + spec_diff_list(
                search,
                view_of(entries@),
                view_of(entries@).len() as int,
                dst,
                *parent,
            ),
            Result::Err(e) => e == GenerateError::InvalidFolder || e == GenerateError::Lookup
                || e == GenerateError::InvalidPathIndex,
        },
        spec_diff_decided(search, view_of(entries@), view_of(entries@).len() as int, dst)
            ==> r is Ok,
        r is Ok ==> spec_diff_decided(
            search,
            view_of(entries@),
            view_of(entries@).len() as int,
            dst,
        ),
    decreases entries@,
{
    let ghost all = view_of(entries@);
    let ghost base = old(out)@;
    proof {
        lemma_entries_view_len(entries@, entries@.len() as int);
        assert(base + spec_diff_list(search, all, 0, dst, *parent) =~= base);
    }
    let n = entries.len();
    let mut i: usize = 0;
    while i < n
        invariant
            search.wf(),
            i <= n,
            n == entries@.len(),
            all == view_of(entries@),
            all.len() == n,
            entries_list_ok(search, Option::<nat>::None, all, all.len() as int),
            out@ == base + spec_diff_list(search, all, i as int, dst, *parent),
            spec_diff_decided(search, all, i as int, dst),
        decreases n - i,
    {
        let ghost dok = spec_diff_decided(search, all, all.len() as int, dst);
        proof {
            if dok {
                lemma_diff_decided_index(search, all, all.len() as int, dst, i as int);
            }
        }
        proof {
            lemma_entries_view_index(entries@, entries@.len() as int, i as int);
            lemma_entries_list_ok_index(
                search,
                Option::<nat>::None,
                all,
                all.len() as int,
                i as int,
            );
            assert(all[i as int] == entry_view(entries@[i as int]));
            assert(entry_ok(search, Option::<nat>::None, all[i as int]));
        }
        match &entries[i] {
            SearchEntry::File(row) => {
                let row = *row;
                let fname = search.paths[row].file_name;
                let mut found = false;
                match search.resolve_path_row(dst) {
                    Option::Some(di) => {
                        match get_direct_child(search, di, fname) {
                            Result::Err(e) => {
                                proof {
                                    if dok {
                                        assert(search.paths@[di as int].path == dst);
                                        assert(di as int == search.spec_row_of(dst));
                                        assert(false);
                                    }
                                }
                                return Result::Err(e);
                            },
                            Result::Ok(o) => {
                                found = o.is_some();
                                proof {
                                    assert(search.paths@[di as int].path == dst);
                                    assert(found == spec_present(search, dst, fname));
                                    assert(spec_diff_entry_decided(search, all[i as int], dst));
                                }
                            },
                        }
                    },
                    Option::None => {
                        proof {
                            assert(!spec_present(search, dst, fname));
                            assert(spec_diff_entry_decided(search, all[i as int], dst));
                        }
                    },
                }
                if !found {
                    let fp = join_hashes(parent.full_path, fname);
                    let rec = File {
                        full_path: fp,
                        file_name: fname,
                        parent: parent.duplicate(),
                        extension: search.paths[row].ext,
                    };
                    let key = search.paths[row].path;
                    out.push((key, rec));
                    proof {
                        assert(spec_diff_entry(search, all[i as int], dst, *parent) =~= seq![
                            (key, rec),
                        ]);
                        assert(base + spec_diff_list(search, all, i as int + 1, dst, *parent)
                            =~= base + spec_diff_list(search, all, i as int, dst, *parent)
                            + seq![(key, rec)]);
                    }
                } else {
                    proof {
                        assert(spec_diff_entry(search, all[i as int], dst, *parent)
                            =~= Seq::<(u64, File)>::empty());
                        assert(base + spec_diff_list(search, all, i as int + 1, dst, *parent)
                            =~= base + spec_diff_list(search, all, i as int, dst, *parent));
                    }
                }
            },
            SearchEntry::Folder { path_index, children } => {
                let row = *path_index;
                let fname = search.paths[row].file_name;
                let dst_name = join_hashes(dst, fname);
                let next_parent = Folder {
                    full_path: dst_name,
                    name: Option::Some(fname),
                    parent: Option::Some(Box::new(parent.duplicate())),
                };
                proof {
                    assert(decreases_to!(entries@ => entries@[i as int]));
                    assert(entries_ok(
                        search,
                        search.spec_first_child(search.paths@[row as int].path),
                        Option::<nat>::None,
                        view_of(children@),
                    ));
                }
                proof {
                    if dok {
                        assert(spec_diff_decided(
                            search,
                            view_of(children@),
                            view_of(children@).len() as int,
                            dst_name,
                        ));
                    }
                }
                let sub = compare_folders_impl(search, children, dst_name, &next_parent, out);
                match sub {
                    Result::Err(e) => {
                        proof {
                            if dok {
                                assert(false);
                            }
                        }
                        return Result::Err(e);
                    },
                    Result::Ok(u) => {
                        proof {
                            assert(spec_diff_entry_decided(search, all[i as int], dst));
                            assert(spec_diff_entry(search, all[i as int], dst, *parent)
                                == spec_diff_list(
                                search,
                                view_of(children@),
                                view_of(children@).len() as int,
                                dst_name,
                                next_parent,
                            ));
                            assert(base + spec_diff_list(
                                search,
                                all,
                                i as int + 1,
                                dst,
                                *parent,
                            ) =~= base + spec_diff_list(search, all, i as int, dst, *parent)
                                + spec_diff_entry(search, all[i as int], dst, *parent));
                        }
                    },
                }
            },
        }
        i += 1;
    }
    Result::Ok(())
}



/// What the destination side must have offered for one diff level to
/// have completed: wherever the destination path resolves it is a
/// directory with a folder entry whose chain either yields the sought
/// name or runs to its end, and folder children recurse. The child
/// resolver succeeds exactly under this condition, so it is both
/// necessary and sufficient for the diff to return a result.
pub open spec fn spec_diff_decided(s: &SearchIndex, es: Seq<EntryModel>, n: int, dst: u64) -> bool
    decreases es, 0int, n,
{
    if n <= 0 || n > es.len() {
        true
    } else {
        spec_diff_decided(s, es, n - 1, dst) && spec_diff_entry_decided(s, es[n - 1], dst)
    }
}

pub open spec fn spec_diff_entry_decided(s: &SearchIndex, e: EntryModel, dst: u64) -> bool
    decreases e, 0int, 0int,
{
    match e {
        EntryModel::File { row } => s.spec_has_row(dst) ==> {
            let dr = s.spec_row_of(dst);
            let fc = s.spec_first_child(dst);
            &&& s.paths@[dr].is_directory
            &&& s.spec_has_folder(dst)
            &&& (has_named_child(s, fc, s.paths@[row].file_name) || exists|rows: Seq<int>|
                chain_ok(s, fc, rows))
        },
        EntryModel::Folder { row, children } => spec_diff_decided(
            s,
            children,
            children.len() as int,
            join_hash(dst, s.paths@[row].file_name),
        ),
    }
}

/// The filesystem-mode counterpart: a folder child matched by a real
/// entry was matched by a real directory — a file standing where a
/// directory is expected makes the whole comparison fail — and an
/// unmatched one met a decided index-side destination.
pub open spec fn spec_diff_path_decided(
    s: &SearchIndex,
    es: Seq<EntryModel>,
    n: int,
    ds: Seq<DiskEntry>,
    rel: u64,
) -> bool
    decreases es, 0int, n,
{
    if n <= 0 || n > es.len() {
        true
    } else {
        spec_diff_path_decided(s, es, n - 1, ds, rel) && spec_diff_path_entry_decided(
            s,
            es[n - 1],
            ds,
            rel,
        )
    }
}

pub open spec fn spec_diff_path_entry_decided(
    s: &SearchIndex,
    e: EntryModel,
    ds: Seq<DiskEntry>,
    rel: u64,
) -> bool
    decreases e, 0int, 0int,
{
    match e {
        EntryModel::File { .. } => true,
        EntryModel::Folder { row, children } => {
            let fname = s.paths@[row].file_name;
            let k = disk_find(ds, fname, 0);
            if k < ds.len() {
                match ds[k].node {
                    DiskNode::Dir(sub) => spec_diff_path_decided(
                        s,
                        children,
                        children.len() as int,
                        sub@,
                        join_hash(rel, fname),
                    ),
                    DiskNode::File => false,
                }
            } else {
                spec_diff_decided(s, children, children.len() as int, join_hash(rel, fname))
            }
        },
    }
}

pub proof fn lemma_diff_decided_index(
    s: &SearchIndex,
    es: Seq<EntryModel>,
    n: int,
    dst: u64,
    i: int,
)
    requires
        spec_diff_decided(s, es, n, dst),
        0 <= i < n <= es.len(),
    ensures
        spec_diff_entry_decided(s, es[i], dst),
    decreases n,
{
    if i < n - 1 {
        lemma_diff_decided_index(s, es, n - 1, dst, i);
    }
}

pub proof fn lemma_diff_path_decided_index(
    s: &SearchIndex,
    es: Seq<EntryModel>,
    n: int,
    ds: Seq<DiskEntry>,
    rel: u64,
    i: int,
)
    requires
        spec_diff_path_decided(s, es, n, ds, rel),
        0 <= i < n <= es.len(),
    ensures
        spec_diff_path_entry_decided(s, es[i], ds, rel),
    decreases n,
{
    if i < n - 1 {
        lemma_diff_path_decided_index(s, es, n - 1, ds, rel, i);
    }
}

/// The mapping that collecting a report list yields: keyed by the
/// source entry's full-path hash, later entries winning.
pub open spec fn to_map_upto(l: Seq<(u64, File)>, n: int) -> Map<u64, File>
    decreases n,
{
    if n <= 0 || n > l.len() {
        Map::empty()
    } else {
        to_map_upto(l, n - 1).insert(l[n - 1].0, l[n - 1].1)
    }
}

pub open spec fn report_map(l: Seq<(u64, File)>) -> Map<u64, File> {
    to_map_upto(l, l.len() as int)
}

/// Compares two subtrees of the same index and reports every file
/// present under `src` but absent from `dst`, keyed by the source
/// file's full-path hash. The source must exist in the index; the
/// destination need not. Folders themselves are never reported: the
/// consumer creates directories implicitly, so only their missing
/// file descendants matter.
pub fn compare_folders(search: &SearchIndex, src: u64, dst: u64) -> (r: Result<
    HashMap<u64, File>,
    GenerateError,
>)
    requires
        search.wf(),
    ensures
        (r matches Result::Err(e) && e == GenerateError::MissingSourceFolder) <==> !search
            .spec_has_row(src),
        search.spec_has_row(src) && src != root_hash() && !search.paths@[search.spec_row_of(
            src,
        )].is_directory ==> (r matches Result::Err(e) && e == GenerateError::InvalidFolder),
        match r {
            Result::Ok(m) => (src == root_hash() || search.paths@[
                search.spec_row_of(src)
            ].is_directory) && search.spec_has_folder(src) && exists|es: Seq<EntryModel>|
                {
                    &&& entries_ok(
                        search,
                        search.spec_first_child(src),
                        Option::<nat>::None,
                        es,
                    )
                    &&& rows_all(es).no_duplicates()
                    &&& spec_diff_decided(search, es, es.len() as int, dst)
                    &&& m@ == report_map(
                        spec_diff_list(
                            search,
                            es,
                            es.len() as int,
                            dst,
                            Folder { full_path: dst, name: Option::None, parent: Option::None },
                        ),
                    )
                },
            Result::Err(e) => e == GenerateError::MissingSourceFolder || e
                == GenerateError::InvalidFolder || e == GenerateError::Lookup || e
                == GenerateError::InvalidPathIndex,
        },
        (search.spec_has_row(src) && (src == root_hash() || search.paths@[
            search.spec_row_of(src)
        ].is_directory) && search.spec_has_folder(src) && exists|es_w: Seq<EntryModel>|
            {
                &&& entries_ok(
                    search,
                    search.spec_first_child(src),
                    Option::<nat>::None,
                    es_w,
                )
                &&& rows_all(es_w).no_duplicates()
                &&& spec_diff_decided(search, es_w, es_w.len() as int, dst)
            }) ==> r is Ok,
{
    let ghost sok = search.spec_has_row(src) && (src == root_hash() || search.paths@[
        search.spec_row_of(src)
    ].is_directory) && search.spec_has_folder(src) && exists|es_w: Seq<EntryModel>|
        {
            &&& entries_ok(search, search.spec_first_child(src), Option::<nat>::None, es_w)
            &&& rows_all(es_w).no_duplicates()
            &&& spec_diff_decided(search, es_w, es_w.len() as int, dst)
        };
    if search.resolve_path_row(src).is_none() {
        return Result::Err(GenerateError::MissingSourceFolder);
    }
    let entries = match walk_search_section(search, src, Option::None) {
        Result::Err(e) => {
            proof {
                if sok {
                    let w = choose|es_w: Seq<EntryModel>|
                        {
                            &&& entries_ok(
                                search,
                                search.spec_first_child(src),
                                Option::<nat>::None,
                                es_w,
                            )
                            &&& rows_all(es_w).no_duplicates()
                            &&& spec_diff_decided(search, es_w, es_w.len() as int, dst)
                        };
                    assert(entries_ok(
                        search,
                        search.spec_first_child(src),
                        depth_view(Option::<usize>::None),
                        w,
                    ) && rows_all(w).no_duplicates());
                    assert(false);
                }
            }
            return Result::Err(e);
        },
        Result::Ok(entries) => entries,
    };
    let folder = Folder { full_path: dst, name: Option::None, parent: Option::None };
    let mut list: Vec<(u64, File)> = Vec::new();
    proof {
        assert(view_of(entries@).len() as int == view_of(entries@).len());
    }
    proof {
        if sok {
            let w = choose|es_w: Seq<EntryModel>|
                {
                    &&& entries_ok(
                        search,
                        search.spec_first_child(src),
                        Option::<nat>::None,
                        es_w,
                    )
                    &&& rows_all(es_w).no_duplicates()
                    &&& spec_diff_decided(search, es_w, es_w.len() as int, dst)
                };
            lemma_walk_deterministic(
                search,
                search.spec_first_child(src),
                Option::<nat>::None,
                view_of(entries@),
                w,
            );
            assert(spec_diff_decided(
                search,
                view_of(entries@),
                view_of(entries@).len() as int,
                dst,
            ));
        }
    }
    match compare_folders_impl(search, &entries, dst, &folder, &mut list) {
        Result::Err(e) => {
            proof {
                if sok {
                    assert(false);
                }
            }
            return Result::Err(e);
        },
        Result::Ok(u) => {},
    }
    let ghost es = view_of(entries@);
    let ghost l_orig = list@;
    proof {
        assert(l_orig == Seq::<(u64, File)>::empty() + spec_diff_list(
            search,
            es,
            es.len() as int,
            dst,
            folder,
        ));
        assert(l_orig =~= spec_diff_list(search, es, es.len() as int, dst, folder));
    }
    let mut m: HashMap<u64, File> = HashMap::new();
    let mut list = list;
    let ghost mut j: int = 0;
    while list.len() > 0
        invariant
            0 <= j <= l_orig.len(),
            list@ == l_orig.subrange(j, l_orig.len() as int),
            m@ == to_map_upto(l_orig, j),
        decreases list@.len(),
    {
        let pair = list.remove(0);
        proof {
            assert(pair == l_orig[j]);
        }
        m.insert(pair.0, pair.1);
        proof {
            j = j + 1;
            assert(list@ =~= l_orig.subrange(j, l_orig.len() as int));
            assert(m@ == to_map_upto(l_orig, j));
        }
    }
    proof {
        assert(list@.len() == 0);
        assert(j == l_orig.len());
        assert(m@ == report_map(l_orig));
        assert(entries_ok(search, search.spec_first_child(src), Option::<nat>::None, es)
            && rows_all(es).no_duplicates() && spec_diff_decided(
            search,
            es,
            es.len() as int,
            dst,
        ) && m@ == report_map(
            spec_diff_list(
                search,
                es,
                es.len() as int,
                dst,
                Folder { full_path: dst, name: Option::None, parent: Option::None },
            ),
        ));
    }
    Result::Ok(m)
}


/// Every row's full-path hash is its parent's hash joined with its own
/// name hash.
pub open spec fn hash_consistent(s: &SearchIndex) -> bool {
    forall|r: int|
        0 <= r < s.paths@.len() ==> #[trigger] s.paths@[r].path == join_hash(
            s.paths@[r].parent,
            s.paths@[r].file_name,
        )
}

/// Every row reached through a folder's sibling chain records that
/// folder's hash as its parent: the agreement between the child
/// threading and the parent fields that a well-formed index keeps,
/// over and above its keys being unique. Diffing a folder against
/// itself genuinely reports entries without it, so the self-diff law
/// assumes it.
pub open spec fn parent_linked(s: &SearchIndex) -> bool {
    forall|fh: u64, rows: Seq<int>, k: int|
        #![trigger chain_partial(s, s.spec_first_child(fh), rows), rows[k]]
        s.spec_has_folder(fh) && chain_partial(s, s.spec_first_child(fh), rows) && 0 <= k
            < rows.len() ==> s.paths@[rows[k]].parent == fh
}

pub proof fn lemma_chain_partial_take(s: &SearchIndex, start: int, rows: Seq<int>, k: int)
    requires
        chain_partial(s, start, rows),
        0 <= k <= rows.len(),
    ensures
        chain_partial(s, start, rows.subrange(0, k)),
    decreases rows.len(),
{
    if k == rows.len() {
        assert(rows.subrange(0, k) =~= rows);
    } else {
        assert(rows.subrange(0, k) =~= rows.drop_last().subrange(0, k));
        lemma_chain_partial_take(s, start, rows.drop_last(), k);
    }
}

/// Under `wf`, the row of a hash that some row carries is that row.
pub proof fn lemma_row_of_unique(s: &SearchIndex, r: int)
    requires
        s.wf(),
        0 <= r < s.paths@.len(),
    ensures
        s.spec_has_row(s.paths@[r].path),
        s.spec_row_of(s.paths@[r].path) == r,
{
    let h = s.paths@[r].path;
    assert(s.spec_has_row(h));
    let w = s.spec_row_of(h);
    assert(0 <= w < s.paths@.len() && s.paths@[w].path == h);
    if w != r {
        if w < r {
            assert(s.paths@[w].path != s.paths@[r].path);
        } else {
            assert(s.paths@[r].path != s.paths@[w].path);
        }
    }
}

/// Comparing a folder's subtree against the folder itself yields
/// nothing: every file child is found again at the destination, and
/// every folder child recurses into the same folder on both sides.
pub proof fn lemma_diff_self_list(
    s: &SearchIndex,
    es: Seq<EntryModel>,
    n: int,
    fh: u64,
    parent: Folder,
)
    requires
        s.wf(),
        hash_consistent(s),
        parent_linked(s),
        s.spec_has_folder(fh),
        s.spec_has_row(fh),
        s.paths@[s.spec_row_of(fh)].is_directory,
        entries_ok(s, s.spec_first_child(fh), Option::<nat>::None, es),
        0 <= n <= es.len(),
    ensures
        spec_diff_list(s, es, n, fh, parent) == Seq::<(u64, File)>::empty(),
        spec_diff_decided(s, es, n, fh),
    decreases es, n,
{
    if n > 0 {
        lemma_diff_self_list(s, es, n - 1, fh, parent);
        let fc = s.spec_first_child(fh);
        let rows = rows_of(es);
        assert(chain_ok(s, fc, rows));
        lemma_entries_list_ok_index(s, Option::<nat>::None, es, es.len() as int, n - 1);
        assert(rows[n - 1] == entry_row(es[n - 1]));
        match es[n - 1] {
            EntryModel::File { row } => {
                let fname = s.paths@[row].file_name;
                lemma_chain_partial_take(s, fc, rows, n);
                let pre = rows.subrange(0, n);
                assert(pre.last() == rows[n - 1]);
                assert(pre.len() > 0 && 0 <= pre.last() < s.paths@.len() && s.paths@[
                    pre.last()
                ].file_name == fname);
                assert(has_named_child(s, fc, fname));
                assert(spec_present(s, fh, fname));
                assert(spec_diff_entry(s, es[n - 1], fh, parent) =~= Seq::<(u64, File)>::empty());
                assert(chain_ok(s, s.spec_first_child(fh), rows));
                assert(spec_diff_entry_decided(s, es[n - 1], fh));
            },
            EntryModel::Folder { row, children } => {
                assert(chain_partial(s, s.spec_first_child(fh), rows) && 0 <= n - 1
                    < rows.len());
                assert(s.paths@[rows[n - 1]].parent == fh);
                assert(s.paths@[row].path == join_hash(fh, s.paths@[row].file_name));
                let dst_name = join_hash(fh, s.paths@[row].file_name);
                lemma_row_of_unique(s, row);
                assert(s.spec_row_of(dst_name) == row);
                assert(decreases_to!(es => es[n - 1]));
                lemma_diff_self_list(
                    s,
                    children,
                    children.len() as int,
                    dst_name,
                    Folder {
                        full_path: dst_name,
                        name: Option::Some(s.paths@[row].file_name),
                        parent: Option::Some(Box::new(parent)),
                    },
                );
                assert(spec_diff_entry(s, es[n - 1], fh, parent) == Seq::<(u64, File)>::empty());
                assert(spec_diff_entry_decided(s, es[n - 1], fh));
            },
        }
        assert(spec_diff_list(s, es, n, fh, parent) =~= Seq::<(u64, File)>::empty());
    } else {
        assert(spec_diff_list(s, es, n, fh, parent) =~= Seq::<(u64, File)>::empty());
    }
}

/// Law: on a well-formed, hash-consistent index, diffing a folder
/// against itself yields the empty mapping.
pub proof fn lemma_diff_self_empty(s: &SearchIndex, es: Seq<EntryModel>, x: u64)
    requires
        s.wf(),
        hash_consistent(s),
        parent_linked(s),
        s.spec_has_folder(x),
        s.spec_has_row(x),
        s.paths@[s.spec_row_of(x)].is_directory,
        entries_ok(s, s.spec_first_child(x), Option::<nat>::None, es),
    ensures
        report_map(
            spec_diff_list(
                s,
                es,
                es.len() as int,
                x,
                Folder { full_path: x, name: Option::None, parent: Option::None },
            ),
        ) == Map::<u64, File>::empty(),
        spec_diff_decided(s, es, es.len() as int, x),
{
    lemma_diff_self_list(
        s,
        es,
        es.len() as int,
        x,
        Folder { full_path: x, name: Option::None, parent: Option::None },
    );
}

/// Law: every reported entry is a file under the source subtree, its
/// key and hashes are that file row's, its full path is the
/// destination path joined with its name, and the destination folder
/// it was checked against has no equally-named direct child.
pub proof fn lemma_diff_sound(
    s: &SearchIndex,
    es: Seq<EntryModel>,
    n: int,
    dst: u64,
    parent: Folder,
)
    requires
        s.wf(),
        entries_list_ok(s, Option::<nat>::None, es, n),
        0 <= n <= es.len(),
        parent.full_path == dst,
    ensures
        forall|idx: int|
            0 <= idx < spec_diff_list(s, es, n, dst, parent).len() ==> {
                let pr = #[trigger] spec_diff_list(s, es, n, dst, parent)[idx];
                &&& exists|r: int|
                    {
                        &&& 0 <= r < s.paths@.len()
                        &&& !s.paths@[r].is_directory
                        &&& #[trigger] spec_flatten(es, n).contains(r)
                        &&& s.paths@[r].path == pr.0
                        &&& s.paths@[r].file_name == pr.1.file_name
                        &&& s.paths@[r].ext == pr.1.extension
                    }
                &&& !spec_present(s, pr.1.parent.full_path, pr.1.file_name)
                &&& pr.1.full_path == join_hash(pr.1.parent.full_path, pr.1.file_name)
            },
    decreases es, n,
{
    if n > 0 {
        lemma_diff_sound(s, es, n - 1, dst, parent);
        lemma_entries_list_ok_index(s, Option::<nat>::None, es, n, n - 1);
        let pre = spec_diff_list(s, es, n - 1, dst, parent);
        let cur = spec_diff_entry(s, es[n - 1], dst, parent);
        let whole = spec_diff_list(s, es, n, dst, parent);
        assert(whole == pre + cur);
        match es[n - 1] {
            EntryModel::File { row } => {
                assert forall|idx: int| 0 <= idx < whole.len() implies diff_item_sound(
                    s,
                    es,
                    n,
                    whole[idx],
                ) by {
                    if idx < pre.len() {
                        assert(diff_item_sound(s, es, n - 1, pre[idx]));
                        lemma_flatten_grows(s, es, n - 1, n, pre[idx]);
                        assert(whole[idx] == pre[idx]);
                    } else {
                        let fname = s.paths@[row].file_name;
                        if !spec_present(s, dst, fname) {
                            let pr = whole[idx];
                            assert(pr == cur[idx - pre.len()]);
                            assert(spec_flatten(es, n) == spec_flatten(es, n - 1)
                                + entry_files(es[n - 1]));
                            assert(entry_files(es[n - 1]) =~= seq![row]);
                            lemma_contains_concat(
                                spec_flatten(es, n - 1),
                                entry_files(es[n - 1]),
                                row,
                            );
                            assert(seq![row][0] == row);
                            assert(spec_flatten(es, n).contains(row));
                        }
                    }
                }
            },
            EntryModel::Folder { row, children } => {
                let fname = s.paths@[row].file_name;
                let dst_name = join_hash(dst, fname);
                let next_parent = Folder {
                    full_path: dst_name,
                    name: Option::Some(fname),
                    parent: Option::Some(Box::new(parent)),
                };
                assert(decreases_to!(es => es[n - 1]));
                assert(entries_list_ok(
                    s,
                    Option::<nat>::None,
                    children,
                    children.len() as int,
                ));
                lemma_diff_sound(s, children, children.len() as int, dst_name, next_parent);
                assert forall|idx: int| 0 <= idx < whole.len() implies diff_item_sound(
                    s,
                    es,
                    n,
                    whole[idx],
                ) by {
                    if idx < pre.len() {
                        assert(diff_item_sound(s, es, n - 1, pre[idx]));
                        lemma_flatten_grows(s, es, n - 1, n, pre[idx]);
                        assert(whole[idx] == pre[idx]);
                    } else {
                        let pr = cur[idx - pre.len()];
                        assert(whole[idx] == pr);
                        assert(diff_item_sound(s, children, children.len() as int, pr));
                        let r = choose|r: int|
                            {
                                &&& 0 <= r < s.paths@.len()
                                &&& !s.paths@[r].is_directory
                                &&& #[trigger] spec_flatten(
                                    children,
                                    children.len() as int,
                                ).contains(r)
                                &&& s.paths@[r].path == pr.0
                                &&& s.paths@[r].file_name == pr.1.file_name
                                &&& s.paths@[r].ext == pr.1.extension
                            };
                        assert(spec_flatten(es, n) == spec_flatten(es, n - 1) + entry_files(
                            es[n - 1],
                        ));
                        assert(entry_files(es[n - 1]) == spec_flatten(
                            children,
                            children.len() as int,
                        ));
                        lemma_contains_concat(
                            spec_flatten(es, n - 1),
                            entry_files(es[n - 1]),
                            r,
                        );
                        assert(spec_flatten(es, n).contains(r));
                    }
                }
            },
        }
    }
}

/// What `lemma_diff_sound` states of one reported pair.
pub open spec fn diff_item_sound(
    s: &SearchIndex,
    es: Seq<EntryModel>,
    n: int,
    pr: (u64, File),
) -> bool {
    &&& exists|r: int|
        {
            &&& 0 <= r < s.paths@.len()
            &&& !s.paths@[r].is_directory
            &&& #[trigger] spec_flatten(es, n).contains(r)
            &&& s.paths@[r].path == pr.0
            &&& s.paths@[r].file_name == pr.1.file_name
            &&& s.paths@[r].ext == pr.1.extension
        }
    &&& !spec_present(s, pr.1.parent.full_path, pr.1.file_name)
    &&& pr.1.full_path == join_hash(pr.1.parent.full_path, pr.1.file_name)
}

pub proof fn lemma_flatten_grows(
    s: &SearchIndex,
    es: Seq<EntryModel>,
    n1: int,
    n2: int,
    pr: (u64, File),
)
    requires
        0 <= n1 <= n2 <= es.len(),
        diff_item_sound(s, es, n1, pr),
    ensures
        diff_item_sound(s, es, n2, pr),
    decreases n2 - n1,
{
    if n1 < n2 {
        let r = choose|r: int|
            {
                &&& 0 <= r < s.paths@.len()
                &&& !s.paths@[r].is_directory
                &&& #[trigger] spec_flatten(es, n1).contains(r)
                &&& s.paths@[r].path == pr.0
                &&& s.paths@[r].file_name == pr.1.file_name
                &&& s.paths@[r].ext == pr.1.extension
            };
        lemma_contains_concat(spec_flatten(es, n1), entry_files(es[n1]), r);
        assert(spec_flatten(es, n1 + 1) == spec_flatten(es, n1) + entry_files(es[n1]));
        assert(spec_flatten(es, n1 + 1).contains(r));
        assert(diff_item_sound(s, es, n1 + 1, pr));
        lemma_flatten_grows(s, es, n1 + 1, n2, pr);
    }
}


/// Law: a traversal result is determined by the index, the start link
/// and the depth bound: any two results that satisfy the traversal
/// shape are equal. Together with the walker's guarantee that its
/// result rows are duplicate-free, an unbounded walk visits every
/// reachable descendant exactly once.
pub proof fn lemma_walk_deterministic(
    s: &SearchIndex,
    start: int,
    depth: Option<nat>,
    es1: Seq<EntryModel>,
    es2: Seq<EntryModel>,
)
    requires
        entries_ok(s, start, depth, es1),
        entries_ok(s, start, depth, es2),
    ensures
        es1 == es2,
    decreases es1,
{
    if depth == Option::<nat>::Some(0) {
        assert(es1 =~= es2);
    } else {
        crate::index::lemma_chain_ok_unique(s, start, rows_of(es1), rows_of(es2));
        assert(rows_of(es1).len() == es1.len());
        assert(rows_of(es2).len() == es2.len());
        assert(es1.len() == es2.len());
        assert forall|k: int| 0 <= k < es1.len() implies es1[k] == es2[k] by {
            lemma_entries_list_ok_index(s, depth, es1, es1.len() as int, k);
            lemma_entries_list_ok_index(s, depth, es2, es2.len() as int, k);
            assert(rows_of(es1)[k] == entry_row(es1[k]));
            assert(rows_of(es2)[k] == entry_row(es2[k]));
            let row = entry_row(es1[k]);
            match es1[k] {
                EntryModel::File { .. } => {
                    assert(!s.paths@[row].is_directory);
                    match es2[k] {
                        EntryModel::File { .. } => {},
                        EntryModel::Folder { .. } => {
                            assert(s.paths@[row].is_directory);
                        },
                    }
                },
                EntryModel::Folder { children: c1, .. } => {
                    assert(s.paths@[row].is_directory);
                    match es2[k] {
                        EntryModel::File { .. } => {
                            assert(!s.paths@[row].is_directory);
                        },
                        EntryModel::Folder { children: c2, .. } => {
                            assert(decreases_to!(es1 => es1[k]));
                            lemma_walk_deterministic(
                                s,
                                s.spec_first_child(s.paths@[row].path),
                                depth_dec(depth),
                                c1,
                                c2,
                            );
                        },
                    }
                },
            }
        }
        assert(es1 =~= es2);
    }
}


/// `a` is a component-wise prefix of `b`.
pub open spec fn is_prefix_of(a: Seq<Seq<char>>, b: Seq<Seq<char>>) -> bool {
    a.len() <= b.len() && forall|k: int| 0 <= k < a.len() ==> a[k] == #[trigger] b[k]
}

/// The hash of a relative path given by its components: the first
/// component's hash, then each further one chained on with the
/// separator.
pub open spec fn rel_hash(cs: Seq<Seq<char>>, n: int) -> u64
    decreases n,
{
    if n <= 0 || n > cs.len() {
        0
    } else {
        let acc = rel_hash(cs, n - 1);
        if acc == 0 {
            crate::hashing::str_hash(cs[n - 1])
        } else {
            join_hash(acc, crate::hashing::str_hash(cs[n - 1]))
        }
    }
}

/// The destination folder chain for a relative path: one level per
/// component, each owning its parent, the comparison root carrying no
/// name.
pub open spec fn folder_from(cs: Seq<Seq<char>>, n: int) -> Folder
    decreases n,
{
    if n <= 0 || n > cs.len() {
        Folder { full_path: 0, name: Option::None, parent: Option::None }
    } else {
        Folder {
            full_path: rel_hash(cs, n),
            name: Option::Some(crate::hashing::str_hash(cs[n - 1])),
            parent: if n == 1 {
                Option::None
            } else {
                Option::Some(Box::new(folder_from(cs, n - 1)))
            },
        }
    }
}

/// Builds the folder chain for the first `n` components.
pub fn folder_from_path(comps: &Vec<String>, n: usize) -> (r: Folder)
    requires
        n <= comps@.len(),
    ensures
        r == folder_from(comps@.map_values(|x: String| x@), n as int),
    decreases n,
{
    let ghost cs = comps@.map_values(|x: String| x@);
    if n == 0 {
        Folder { full_path: 0, name: Option::None, parent: Option::None }
    } else {
        let mut acc: u64 = 0;
        let mut i: usize = 0;
        while i < n
            invariant
                i <= n <= comps@.len(),
                cs == comps@.map_values(|x: String| x@),
                acc == rel_hash(cs, i as int),
            decreases n - i,
        {
            let h = crate::hashing::hash_str(comps[i].as_str());
            proof {
                assert(comps@[i as int]@ == cs[i as int]);
            }
            if acc == 0 {
                acc = h;
            } else {
                acc = join_hashes(acc, h);
            }
            i += 1;
        }
        let name = crate::hashing::hash_str(comps[n - 1].as_str());
        proof {
            assert(comps@[n as int - 1]@ == cs[n as int - 1]);
        }
        let parent = if n == 1 {
            Option::None
        } else {
            Option::Some(Box::new(folder_from_path(comps, n - 1)))
        };
        Folder { full_path: acc, name: Option::Some(name), parent }
    }
}

/// First entry of a real directory listing whose name hashes to `h`,
/// at or after `i`; the length when none does.
pub open spec fn disk_find(ds: Seq<DiskEntry>, h: u64, i: int) -> int
    decreases ds.len() - i,
{
    if i < 0 || i >= ds.len() {
        ds.len() as int
    } else if crate::hashing::str_hash(ds[i].name@) == h {
        i
    } else {
        disk_find(ds, h, i + 1)
    }
}

/// Scans a listing for an entry whose name hashes to `h`.
fn find_disk_entry(disk: &Vec<DiskEntry>, h: u64) -> (r: usize)
    ensures
        r as int == disk_find(disk@, h, 0),
        r <= disk@.len(),
{
    let n = disk.len();
    let mut i: usize = 0;
    while i < n
        invariant
            i <= n,
            n == disk@.len(),
            disk_find(disk@, h, 0) == disk_find(disk@, h, i as int),
        decreases n - i,
    {
        let eh = crate::hashing::hash_str(disk[i].name.as_str());
        if eh == h {
            return i;
        }
        i += 1;
    }
    proof {
        lemma_disk_find_end(disk@, h, i as int);
    }
    n
}

pub proof fn lemma_disk_find_end(ds: Seq<DiskEntry>, h: u64, i: int)
    requires
        i >= ds.len(),
    ensures
        disk_find(ds, h, i) == ds.len(),
{
}

/// The label map after every literal name in a directory snapshot is
/// registered, depth first, in listing order.
pub open spec fn spec_disk_labels(
    m: Map<u64, Seq<char>>,
    ds: Seq<DiskEntry>,
    n: int,
) -> Map<u64, Seq<char>>
    decreases ds, 0int, n,
{
    if n <= 0 || n > ds.len() {
        m
    } else {
        spec_disk_entry_labels(spec_disk_labels(m, ds, n - 1), ds[n - 1])
    }
}

pub open spec fn spec_disk_entry_labels(m: Map<u64, Seq<char>>, e: DiskEntry) -> Map<
    u64,
    Seq<char>,
>
    decreases e, 0int, 0int,
{
    let m1 = crate::labels::spec_add_label(m, e.name@);
    match e.node {
        DiskNode::File => m1,
        DiskNode::Dir(cs) => spec_disk_labels(m1, cs@, cs@.len() as int),
    }
}

/// Registers every literal name of a directory snapshot in the label
/// map, so later hash-to-label lookups succeed.
fn register_disk_labels(label_map: &mut hash40::label_map::LabelMap, disk: &Vec<DiskEntry>)
    ensures
        crate::labels::label_contents(*final(label_map)) == spec_disk_labels(
            crate::labels::label_contents(*old(label_map)),
            disk@,
            disk@.len() as int,
        ),
    decreases disk@,
{
    let ghost m0 = crate::labels::label_contents(*label_map);
    let n = disk.len();
    let mut i: usize = 0;
    while i < n
        invariant
            i <= n,
            n == disk@.len(),
            crate::labels::label_contents(*label_map) == spec_disk_labels(m0, disk@, i as int),
        decreases n - i,
    {
        let ghost m_pre = crate::labels::label_contents(*label_map);
        let name = disk[i].name.clone();
        crate::labels::add_label(label_map, name);
        match &disk[i].node {
            DiskNode::File => {},
            DiskNode::Dir(sub) => {
                proof {
                    assert(decreases_to!(disk@ => disk@[i as int]));
                }
                register_disk_labels(label_map, sub);
            },
        }
        proof {
            assert(crate::labels::label_contents(*label_map) == spec_disk_entry_labels(
                m_pre,
                disk@[i as int],
            ));
        }
        i += 1;
    }
}

/// The missing entries of one level of the filesystem-mode diff: a
/// file child is reported unless a real entry of the same name hash
/// exists; a folder child with a matching real directory recurses into
/// that directory's own listing; one without a real match recurses in
/// index-vs-index mode against a destination that is known absent.
pub open spec fn spec_diff_path_list(
    s: &SearchIndex,
    es: Seq<EntryModel>,
    n: int,
    ds: Seq<DiskEntry>,
    rel: u64,
    parent: Folder,
) -> Seq<(u64, File)>
    decreases es, 0int, n,
{
    if n <= 0 || n > es.len() {
        Seq::empty()
    } else {
        spec_diff_path_list(s, es, n - 1, ds, rel, parent) + spec_diff_path_entry(
            s,
            es[n - 1],
            ds,
            rel,
            parent,
        )
    }
}

pub open spec fn spec_diff_path_entry(
    s: &SearchIndex,
    e: EntryModel,
    ds: Seq<DiskEntry>,
    rel: u64,
    parent: Folder,
) -> Seq<(u64, File)>
    decreases e, 0int, 0int,
{
    match e {
        EntryModel::File { row } => {
            let fname = s.paths@[row].file_name;
            if disk_find(ds, fname, 0) < ds.len() {
                Seq::empty()
            } else {
                seq![
                    (
                        s.paths@[row].path,
                        File {
                            full_path: join_hash(parent.full_path, fname),
                            file_name: fname,
                            parent: parent,
                            extension: s.paths@[row].ext,
                        },
                    ),
                ]
            }
        },
        EntryModel::Folder { row, children } => {
            let fname = s.paths@[row].file_name;
            let next_rel = join_hash(rel, fname);
            let next_parent = Folder {
                full_path: next_rel,
                name: Option::Some(fname),
                parent: Option::Some(Box::new(parent)),
            };
            let k = disk_find(ds, fname, 0);
            if k < ds.len() {
                match ds[k].node {
                    DiskNode::Dir(sub) => spec_diff_path_list(
                        s,
                        children,
                        children.len() as int,
                        sub@,
                        next_rel,
                        next_parent,
                    ),
                    DiskNode::File => Seq::empty(),
                }
            } else {
                spec_diff_list(s, children, children.len() as int, next_rel, next_parent)
            }
        },
    }
}


/// Diffs one traversal level against a real directory snapshot,
/// appending the missing entries to `out`.
fn compare_folders_path_impl(
    search: &SearchIndex,
    entries: &Vec<SearchEntry>,
    disk: &Vec<DiskEntry>,
    rel: u64,
    parent: &Folder,
    out: &mut Vec<(u64, File)>,
) -> (r: Result<(), GenerateError>)
    requires
        search.wf(),
        entries_list_ok(
            search,
            Option::<nat>::None,
            view_of(entries@),
            view_of(entries@).len() as int,
        ),
    ensures
        match r {
            Result::Ok(u) => final(out)@ == old(out)@ + spec_diff_path_list(
                search,
                view_of(entries@),
                view_of(entries@).len() as int,
                disk@,
                rel,
                *parent,
            ),
            Result::Err(e) => e == GenerateError::InvalidFolder || e == GenerateError::Lookup
                || e == GenerateError::InvalidPathIndex,
        },
        spec_diff_path_decided(
            search,
            view_of(entries@),
            view_of(entries@).len() as int,
            disk@,
            rel,
        ) ==> r is Ok,
        r is Ok ==> spec_diff_path_decided(
            search,
            view_of(entries@),
            view_of(entries@).len() as int,
            disk@,
            rel,
        ),
    decreases entries@,
{
    let ghost all = view_of(entries@);
    let ghost base = old(out)@;
    proof {
        lemma_entries_view_len(entries@, entries@.len() as int);
        assert(base + spec_diff_path_list(search, all, 0, disk@, rel, *parent) =~= base);
    }
    let n = entries.len();
    let mut i: usize = 0;
    while i < n
        invariant
            search.wf(),
            i <= n,
            n == entries@.len(),
            all == view_of(entries@),
            all.len() == n,
            entries_list_ok(search, Option::<nat>::None, all, all.len() as int),
            out@ == base + spec_diff_path_list(search, all, i as int, disk@, rel, *parent),
            spec_diff_path_decided(search, all, i as int, disk@, rel),
        decreases n - i,
    {
        let ghost dok = spec_diff_path_decided(search, all, all.len() as int, disk@, rel);
        proof {
            lemma_entries_view_index(entries@, entries@.len() as int, i as int);
            lemma_entries_list_ok_index(
                search,
                Option::<nat>::None,
                all,
                all.len() as int,
                i as int,
            );
            assert(all[i as int] == entry_view(entries@[i as int]));
            assert(entry_ok(search, Option::<nat>::None, all[i as int]));
            if dok {
                lemma_diff_path_decided_index(
                    search,
                    all,
                    all.len() as int,
                    disk@,
                    rel,
                    i as int,
                );
            }
        }
        match &entries[i] {
            SearchEntry::File(row) => {
                let row = *row;
                let fname = search.paths[row].file_name;
                let k = find_disk_entry(disk, fname);
                if k >= disk.len() {
                    let fp = join_hashes(parent.full_path, fname);
                    let rec = File {
                        full_path: fp,
                        file_name: fname,
                        parent: parent.duplicate(),
                        extension: search.paths[row].ext,
                    };
                    let key = search.paths[row].path;
                    out.push((key, rec));
                    proof {
                        assert(spec_diff_path_entry_decided(search, all[i as int], disk@, rel));
                        assert(spec_diff_path_entry(search, all[i as int], disk@, rel, *parent)
                            =~= seq![(key, rec)]);
                        assert(base + spec_diff_path_list(
                            search,
                            all,
                            i as int + 1,
                            disk@,
                            rel,
                            *parent,
                        ) =~= base + spec_diff_path_list(search, all, i as int, disk@, rel, *parent)
                            + seq![(key, rec)]);
                    }
                } else {
                    proof {
                        assert(spec_diff_path_entry_decided(search, all[i as int], disk@, rel));
                        assert(spec_diff_path_entry(search, all[i as int], disk@, rel, *parent)
                            =~= Seq::<(u64, File)>::empty());
                        assert(base + spec_diff_path_list(
                            search,
                            all,
                            i as int + 1,
                            disk@,
                            rel,
                            *parent,
                        ) =~= base + spec_diff_path_list(
                            search,
                            all,
                            i as int,
                            disk@,
                            rel,
                            *parent,
                        ));
                    }
                }
            },
            SearchEntry::Folder { path_index, children } => {
                let row = *path_index;
                let fname = search.paths[row].file_name;
                let next_rel = join_hashes(rel, fname);
                let next_parent = Folder {
                    full_path: next_rel,
                    name: Option::Some(fname),
                    parent: Option::Some(Box::new(parent.duplicate())),
                };
                proof {
                    assert(decreases_to!(entries@ => entries@[i as int]));
                    assert(entries_ok(
                        search,
                        search.spec_first_child(search.paths@[row as int].path),
                        Option::<nat>::None,
                        view_of(children@),
                    ));
                }
                let k = find_disk_entry(disk, fname);
                let sub: Result<(), GenerateError>;
                if k < disk.len() {
                    match &disk[k].node {
                        DiskNode::File => {
                            proof {
                                if dok {
                                    assert(false);
                                }
                            }
                            return Result::Err(GenerateError::InvalidFolder);
                        },
                        DiskNode::Dir(real_sub) => {
                            sub = compare_folders_path_impl(
                                search,
                                children,
                                real_sub,
                                next_rel,
                                &next_parent,
                                out,
                            );
                        },
                    }
                } else {
                    sub = compare_folders_impl(search, children, next_rel, &next_parent, out);
                }
                match sub {
                    Result::Err(e) => {
                        proof {
                            if dok {
                                assert(false);
                            }
                        }
                        return Result::Err(e);
                    },
                    Result::Ok(u) => {
                        proof {
                            assert(spec_diff_path_entry_decided(
                                search,
                                all[i as int],
                                disk@,
                                rel,
                            ));
                            assert(base + spec_diff_path_list(
                                search,
                                all,
                                i as int + 1,
                                disk@,
                                rel,
                                *parent,
                            ) =~= base + spec_diff_path_list(
                                search,
                                all,
                                i as int,
                                disk@,
                                rel,
                                *parent,
                            ) + spec_diff_path_entry(search, all[i as int], disk@, rel, *parent));
                        }
                    },
                }
            },
        }
        i += 1;
    }
    Result::Ok(())
}



/// The traversal witness that a satisfiable success condition of the
/// filesystem-mode diff provides.
pub open spec fn path_ok_witness(
    s: &SearchIndex,
    src: u64,
    dst_tree: Option<&DiskNode>,
    rh: u64,
) -> Seq<EntryModel> {
    choose|es_w: Seq<EntryModel>|
        {
            &&& entries_ok(s, s.spec_first_child(src), Option::<nat>::None, es_w)
            &&& rows_all(es_w).no_duplicates()
            &&& match dst_tree {
                Option::Some(node) => match node {
                    DiskNode::Dir(ds) => spec_diff_path_decided(s, es_w, es_w.len() as int, ds@, rh),
                    DiskNode::File => false,
                },
                Option::None => spec_diff_decided(s, es_w, es_w.len() as int, rh),
            }
        }
}

/// The relative components of `dst` under `root`.
pub open spec fn rel_components(dst: Seq<char>, root: Seq<char>) -> Seq<Seq<char>> {
    crate::hashing::spec_components(dst).skip(
        crate::hashing::spec_components(root).len() as int,
    )
}

/// The label map contents after `compare_folders_path` has registered
/// what it reads: each relative path component, and, when the
/// destination exists as a real directory, every literal name in its
/// snapshot.
pub open spec fn path_diff_labels(
    m: Map<u64, Seq<char>>,
    dst_tree: Option<&DiskNode>,
    rel: Seq<Seq<char>>,
) -> Map<u64, Seq<char>> {
    let m1 = crate::labels::spec_add_components(m, rel, rel.len() as int);
    match dst_tree {
        Option::Some(node) => match node {
            DiskNode::Dir(ds) => spec_disk_labels(m1, ds@, ds@.len() as int),
            DiskNode::File => m1,
        },
        Option::None => m1,
    }
}

/// Compares a source subtree of the index against a real directory,
/// given as a snapshot listing (`None` when the destination does not
/// exist on disk at all). `dst` and `root` are slash-separated paths;
/// the destination is identified by its components relative to `root`,
/// so the reported hashes are portable. Every relative component and
/// every listed name is registered in the label map along the way. A
/// real entry that stands where a directory is expected fails the
/// comparison rather than being entered.
pub fn compare_folders_path(
    search: &SearchIndex,
    label_map: &mut hash40::label_map::LabelMap,
    src: u64,
    dst_tree: Option<&DiskNode>,
    dst: &str,
    root: &str,
) -> (r: Result<HashMap<u64, File>, GenerateError>)
    requires
        search.wf(),
    ensures
        (r matches Result::Err(e) && e == GenerateError::MissingSourceFolder) <==> !search
            .spec_has_row(src),
        (r matches Result::Err(e) && e == GenerateError::InvalidRoot) <==> (search.spec_has_row(
            src,
        ) && !is_prefix_of(
            crate::hashing::spec_components(root@),
            crate::hashing::spec_components(dst@),
        )),
        (r matches Result::Err(e) && (e == GenerateError::MissingSourceFolder || e
            == GenerateError::InvalidRoot)) ==> crate::labels::label_contents(*final(label_map))
            == crate::labels::label_contents(*old(label_map)),
        !(r matches Result::Err(e) && (e == GenerateError::MissingSourceFolder || e
            == GenerateError::InvalidRoot)) ==> crate::labels::label_contents(*final(label_map))
            == path_diff_labels(
            crate::labels::label_contents(*old(label_map)),
            dst_tree,
            rel_components(dst@, root@),
        ),
        match r {
            Result::Ok(m) => {
                let rel = rel_components(dst@, root@);
                let rh = rel_hash(rel, rel.len() as int);
                &&& (src == root_hash() || search.paths@[
                    search.spec_row_of(src)
                ].is_directory)
                &&& search.spec_has_folder(src)
                &&& exists|es: Seq<EntryModel>|
                    {
                        &&& entries_ok(
                            search,
                            search.spec_first_child(src),
                            Option::<nat>::None,
                            es,
                        )
                        &&& rows_all(es).no_duplicates()
                        &&& match dst_tree {
                            Option::Some(node) => match node {
                                DiskNode::Dir(ds) => spec_diff_path_decided(
                                    search,
                                    es,
                                    es.len() as int,
                                    ds@,
                                    rh,
                                ) && m@ == report_map(
                                    spec_diff_path_list(
                                        search,
                                        es,
                                        es.len() as int,
                                        ds@,
                                        rh,
                                        folder_from(rel, rel.len() as int),
                                    ),
                                ),
                                DiskNode::File => false,
                            },
                            Option::None => spec_diff_decided(
                                search,
                                es,
                                es.len() as int,
                                rh,
                            ) && m@ == report_map(
                                spec_diff_list(
                                    search,
                                    es,
                                    es.len() as int,
                                    rh,
                                    folder_from(rel, rel.len() as int),
                                ),
                            ),
                        }
                    }
            },
            Result::Err(e) => e == GenerateError::MissingSourceFolder || e
                == GenerateError::InvalidRoot || e == GenerateError::InvalidFolder || e
                == GenerateError::Lookup || e == GenerateError::InvalidPathIndex,
        },
        (r is Ok && dst_tree is Some) ==> dst_tree->Some_0 is Dir,
        ({
            let rel = rel_components(dst@, root@);
            let rh = rel_hash(rel, rel.len() as int);
            &&& search.spec_has_row(src)
            &&& src == root_hash() || search.paths@[search.spec_row_of(src)].is_directory
            &&& search.spec_has_folder(src)
            &&& is_prefix_of(
                crate::hashing::spec_components(root@),
                crate::hashing::spec_components(dst@),
            )
            &&& exists|es_w: Seq<EntryModel>|
                {
                    &&& entries_ok(
                        search,
                        search.spec_first_child(src),
                        Option::<nat>::None,
                        es_w,
                    )
                    &&& rows_all(es_w).no_duplicates()
                    &&& match dst_tree {
                        Option::Some(node) => match node {
                            DiskNode::Dir(ds) => spec_diff_path_decided(
                                search,
                                es_w,
                                es_w.len() as int,
                                ds@,
                                rh,
                            ),
                            DiskNode::File => false,
                        },
                        Option::None => spec_diff_decided(search, es_w, es_w.len() as int, rh),
                    }
                }
        }) ==> r is Ok,
{
    let ghost g_rel = rel_components(dst@, root@);
    let ghost g_rh = rel_hash(g_rel, g_rel.len() as int);
    let ghost sok = {
        &&& search.spec_has_row(src)
        &&& src == root_hash() || search.paths@[search.spec_row_of(src)].is_directory
        &&& search.spec_has_folder(src)
        &&& is_prefix_of(
            crate::hashing::spec_components(root@),
            crate::hashing::spec_components(dst@),
        )
        &&& exists|es_w: Seq<EntryModel>|
            {
                &&& entries_ok(
                    search,
                    search.spec_first_child(src),
                    Option::<nat>::None,
                    es_w,
                )
                &&& rows_all(es_w).no_duplicates()
                &&& match dst_tree {
                    Option::Some(node) => match node {
                        DiskNode::Dir(ds) => spec_diff_path_decided(
                            search,
                            es_w,
                            es_w.len() as int,
                            ds@,
                            g_rh,
                        ),
                        DiskNode::File => false,
                    },
                    Option::None => spec_diff_decided(search, es_w, es_w.len() as int, g_rh),
                }
            }
    };
    if search.resolve_path_row(src).is_none() {
        return Result::Err(GenerateError::MissingSourceFolder);
    }
    let comps_d = crate::hashing::split_components(dst);
    let comps_r = crate::hashing::split_components(root);
    let ghost cs_d = crate::hashing::spec_components(dst@);
    let ghost cs_r = crate::hashing::spec_components(root@);
    let nr = comps_r.len();
    let nd = comps_d.len();
    if nr > nd {
        proof {
            assert(cs_r.len() == nr && cs_d.len() == nd);
            assert(!is_prefix_of(cs_r, cs_d));
        }
        return Result::Err(GenerateError::InvalidRoot);
    }
    let mut k: usize = 0;
    while k < nr
        invariant
            k <= nr <= nd,
            nr == cs_r.len(),
            nd == cs_d.len(),
            cs_r == crate::hashing::spec_components(root@),
            cs_d == crate::hashing::spec_components(dst@),
            cs_r == comps_r@.map_values(|x: String| x@),
            cs_d == comps_d@.map_values(|x: String| x@),
            search.spec_has_row(src),
            crate::labels::label_contents(*label_map) == crate::labels::label_contents(
                *old(label_map),
            ),
            forall|j: int| 0 <= j < k ==> cs_r[j] == #[trigger] cs_d[j],
        decreases nr - k,
    {
        if !(comps_r[k] == comps_d[k]) {
            proof {
                assert(comps_r@[k as int]@ == cs_r[k as int]);
                assert(comps_d@[k as int]@ == cs_d[k as int]);
                assert(cs_r[k as int] != cs_d[k as int]);
                assert(!is_prefix_of(cs_r, cs_d));
            }
            return Result::Err(GenerateError::InvalidRoot);
        }
        k += 1;
    }
    proof {
        assert(is_prefix_of(cs_r, cs_d));
    }
    // the relative components of the destination under the root
    let mut rel: Vec<String> = Vec::new();
    let mut k2: usize = nr;
    let ghost rel_cs = rel_components(dst@, root@);
    proof {
        assert(rel_cs =~= cs_d.skip(nr as int));
        assert(rel@.map_values(|x: String| x@) =~= rel_cs.take(0));
    }
    while k2 < nd
        invariant
            nr <= k2 <= nd,
            nd == cs_d.len(),
            cs_d == comps_d@.map_values(|x: String| x@),
            rel_cs == cs_d.skip(nr as int),
            rel@.map_values(|x: String| x@) == rel_cs.take(k2 - nr),
        decreases nd - k2,
    {
        let ghost acc0 = rel@.map_values(|x: String| x@);
        rel.push(comps_d[k2].clone());
        proof {
            assert(rel@.map_values(|x: String| x@) =~= acc0.push(cs_d[k2 as int]));
            assert(rel_cs.take(k2 - nr + 1) =~= rel_cs.take(k2 - nr).push(cs_d[k2 as int]));
        }
        k2 += 1;
    }
    proof {
        assert(rel_cs.take(nd - nr) =~= rel_cs);
        assert(rel@.map_values(|x: String| x@) == rel_cs);
    }
    // register every relative component as a label
    let ghost m0 = crate::labels::label_contents(*label_map);
    let rn = rel.len();
    let mut k3: usize = 0;
    while k3 < rn
        invariant
            k3 <= rn,
            rn == rel@.len(),
            rel_cs == rel@.map_values(|x: String| x@),
            crate::labels::label_contents(*label_map) == crate::labels::spec_add_components(
                m0,
                rel_cs,
                k3 as int,
            ),
        decreases rn - k3,
    {
        let piece = rel[k3].clone();
        proof {
            assert(piece@ == rel_cs[k3 as int]);
        }
        crate::labels::add_label(label_map, piece);
        k3 += 1;
    }
    let folder = folder_from_path(&rel, rn);
    let rel_h = {
        let mut acc: u64 = 0;
        let mut k4: usize = 0;
        while k4 < rn
            invariant
                k4 <= rn,
                rn == rel@.len(),
                rel_cs == rel@.map_values(|x: String| x@),
                acc == rel_hash(rel_cs, k4 as int),
            decreases rn - k4,
        {
            let h = crate::hashing::hash_str(rel[k4].as_str());
            proof {
                assert(rel@[k4 as int]@ == rel_cs[k4 as int]);
            }
            if acc == 0 {
                acc = h;
            } else {
                acc = join_hashes(acc, h);
            }
            k4 += 1;
        }
        acc
    };
    proof {
        assert(g_rel == rel@.map_values(|x: String| x@));
        assert(rel_h == g_rh);
    }
    match dst_tree {
        Option::None => {
            let entries = match walk_search_section(search, src, Option::None) {
                Result::Err(e) => {
                    proof {
                        if sok {
                            let w = path_ok_witness(search, src, dst_tree, g_rh);
                            assert(entries_ok(
                                search,
                                search.spec_first_child(src),
                                depth_view(Option::<usize>::None),
                                w,
                            ) && rows_all(w).no_duplicates());
                            assert(false);
                        }
                    }
                    return Result::Err(e);
                },
                Result::Ok(es) => es,
            };
            let mut list: Vec<(u64, File)> = Vec::new();
            match compare_folders_impl(search, &entries, rel_h, &folder, &mut list) {
                Result::Err(e) => {
                    proof {
                        if sok {
                            let w = path_ok_witness(search, src, dst_tree, g_rh);
                            lemma_walk_deterministic(
                                search,
                                search.spec_first_child(src),
                                Option::<nat>::None,
                                view_of(entries@),
                                w,
                            );
                            assert(spec_diff_decided(
                                search,
                                view_of(entries@),
                                view_of(entries@).len() as int,
                                rel_h,
                            ));
                            assert(false);
                        }
                    }
                    return Result::Err(e);
                },
                Result::Ok(u) => {},
            }
            let m = collect_report(list);
            proof {
                let es = view_of(entries@);
                assert(Seq::<(u64, File)>::empty() + spec_diff_list(
                    search,
                    es,
                    es.len() as int,
                    rel_h,
                    folder,
                ) =~= spec_diff_list(search, es, es.len() as int, rel_h, folder));
            }
            Result::Ok(m)
        },
        Option::Some(node) => {
            match node {
                DiskNode::File => Result::Err(GenerateError::InvalidFolder),
                DiskNode::Dir(disk) => {
                    register_disk_labels(label_map, disk);
                    let entries = match walk_search_section(search, src, Option::None) {
                        Result::Err(e) => {
                            proof {
                                if sok {
                                    let w = path_ok_witness(search, src, dst_tree, g_rh);
                                    assert(entries_ok(
                                        search,
                                        search.spec_first_child(src),
                                        depth_view(Option::<usize>::None),
                                        w,
                                    ) && rows_all(w).no_duplicates());
                                    assert(false);
                                }
                            }
                            return Result::Err(e);
                        },
                        Result::Ok(es) => es,
                    };
                    let mut list: Vec<(u64, File)> = Vec::new();
                    match compare_folders_path_impl(
                        search,
                        &entries,
                        disk,
                        rel_h,
                        &folder,
                        &mut list,
                    ) {
                        Result::Err(e) => {
                            proof {
                                if sok {
                                    let w = path_ok_witness(search, src, dst_tree, g_rh);
                                    lemma_walk_deterministic(
                                        search,
                                        search.spec_first_child(src),
                                        Option::<nat>::None,
                                        view_of(entries@),
                                        w,
                                    );
                                    assert(spec_diff_path_decided(
                                        search,
                                        view_of(entries@),
                                        view_of(entries@).len() as int,
                                        disk@,
                                        rel_h,
                                    ));
                                    assert(false);
                                }
                            }
                            return Result::Err(e);
                        },
                        Result::Ok(u) => {},
                    }
                    let m = collect_report(list);
                    proof {
                        let es = view_of(entries@);
                        assert(Seq::<(u64, File)>::empty() + spec_diff_path_list(
                            search,
                            es,
                            es.len() as int,
                            disk@,
                            rel_h,
                            folder,
                        ) =~= spec_diff_path_list(
                            search,
                            es,
                            es.len() as int,
                            disk@,
                            rel_h,
                            folder,
                        ));
                    }
                    Result::Ok(m)
                },
            }
        },
    }
}

/// Collects a report list into the mapping keyed by source full-path
/// hash.
fn collect_report(list: Vec<(u64, File)>) -> (m: HashMap<u64, File>)
    ensures
        m@ == report_map(list@),
{
    let ghost l_orig = list@;
    let mut m: HashMap<u64, File> = HashMap::new();
    let mut list = list;
    let ghost mut j: int = 0;
    while list.len() > 0
        invariant
            0 <= j <= l_orig.len(),
            list@ == l_orig.subrange(j, l_orig.len() as int),
            m@ == to_map_upto(l_orig, j),
        decreases list@.len(),
    {
        let pair = list.remove(0);
        proof {
            assert(pair == l_orig[j]);
        }
        m.insert(pair.0, pair.1);
        proof {
            j = j + 1;
            assert(list@ =~= l_orig.subrange(j, l_orig.len() as int));
        }
    }
    proof {
        assert(j == l_orig.len());
    }
    m
}


/// The destination listing contains every entry of the source
/// traversal: each file child's name appears among the real entries,
/// and each folder child is matched by a real directory whose own
/// listing contains that child's entries in turn.
pub open spec fn covers(s: &SearchIndex, es: Seq<EntryModel>, n: int, ds: Seq<DiskEntry>) -> bool
    decreases es, 0int, n,
{
    if n <= 0 || n > es.len() {
        true
    } else {
        covers(s, es, n - 1, ds) && entry_covered(s, es[n - 1], ds)
    }
}

pub open spec fn entry_covered(s: &SearchIndex, e: EntryModel, ds: Seq<DiskEntry>) -> bool
    decreases e, 0int, 0int,
{
    match e {
        EntryModel::File { row } => disk_find(ds, s.paths@[row].file_name, 0) < ds.len(),
        EntryModel::Folder { row, children } => {
            let k = disk_find(ds, s.paths@[row].file_name, 0);
            &&& k < ds.len()
            &&& match ds[k].node {
                DiskNode::Dir(sub) => covers(s, children, children.len() as int, sub@),
                DiskNode::File => false,
            }
        },
    }
}

/// Law: re-running the filesystem-mode diff after the destination has
/// been extended to contain every entry of the source subtree — as it
/// is once every reported missing file has been materialized — yields
/// an empty mapping.
pub proof fn lemma_diff_path_covered(
    s: &SearchIndex,
    es: Seq<EntryModel>,
    n: int,
    ds: Seq<DiskEntry>,
    rel: u64,
    parent: Folder,
)
    requires
        covers(s, es, n, ds),
        0 <= n <= es.len(),
    ensures
        spec_diff_path_list(s, es, n, ds, rel, parent) == Seq::<(u64, File)>::empty(),
    decreases es, n,
{
    if n > 0 {
        lemma_diff_path_covered(s, es, n - 1, ds, rel, parent);
        assert(entry_covered(s, es[n - 1], ds));
        match es[n - 1] {
            EntryModel::File { .. } => {
                assert(spec_diff_path_entry(s, es[n - 1], ds, rel, parent) =~= Seq::<
                    (u64, File),
                >::empty());
            },
            EntryModel::Folder { row, children } => {
                let fname = s.paths@[row].file_name;
                let k = disk_find(ds, fname, 0);
                match ds[k].node {
                    DiskNode::Dir(sub) => {
                        let next_rel = join_hash(rel, fname);
                        let next_parent = Folder {
                            full_path: next_rel,
                            name: Option::Some(fname),
                            parent: Option::Some(Box::new(parent)),
                        };
                        assert(decreases_to!(es => es[n - 1]));
                        lemma_diff_path_covered(
                            s,
                            children,
                            children.len() as int,
                            sub@,
                            next_rel,
                            next_parent,
                        );
                        assert(spec_diff_path_entry(s, es[n - 1], ds, rel, parent) == Seq::<
                            (u64, File),
                        >::empty());
                    },
                    DiskNode::File => {
                        assert(false);
                    },
                }
            },
        }
        assert(spec_diff_path_list(s, es, n, ds, rel, parent) =~= Seq::<(u64, File)>::empty());
    } else {
        assert(spec_diff_path_list(s, es, n, ds, rel, parent) =~= Seq::<(u64, File)>::empty());
    }
}


pub proof fn lemma_report_map_items(l: Seq<(u64, File)>, n: int, k: u64)
    requires
        0 <= n <= l.len(),
        to_map_upto(l, n).contains_key(k),
    ensures
        exists|idx: int|
            0 <= idx < n && (#[trigger] l[idx]).0 == k && l[idx].1 == to_map_upto(l, n)[k],
    decreases n,
{
    if n > 0 {
        if l[n - 1].0 == k {
            assert(l[n - 1].0 == k && l[n - 1].1 == to_map_upto(l, n)[k]);
        } else {
            lemma_report_map_items(l, n - 1, k);
            let idx = choose|idx: int|
                0 <= idx < n - 1 && (#[trigger] l[idx]).0 == k && l[idx].1 == to_map_upto(
                    l,
                    n - 1,
                )[k];
            assert(l[idx].0 == k && l[idx].1 == to_map_upto(l, n)[k]);
        }
    }
}

/// Law: every entry of a reported mapping names a file row of the
/// walked source subtree, keyed by that row's full-path hash and
/// carrying its name and extension hashes; its destination folder has
/// no equally-named direct child in the index; and its full path is
/// that folder's path joined with the name.
pub proof fn lemma_compare_folders_sound(
    s: &SearchIndex,
    es: Seq<EntryModel>,
    dst: u64,
    m: Map<u64, File>,
    k: u64,
)
    requires
        s.wf(),
        entries_list_ok(s, Option::<nat>::None, es, es.len() as int),
        m == report_map(
            spec_diff_list(
                s,
                es,
                es.len() as int,
                dst,
                Folder { full_path: dst, name: Option::None, parent: Option::None },
            ),
        ),
        m.contains_key(k),
    ensures
        diff_item_sound(s, es, es.len() as int, (k, m[k])),
{
    let root = Folder { full_path: dst, name: Option::None, parent: Option::None };
    let l = spec_diff_list(s, es, es.len() as int, dst, root);
    lemma_report_map_items(l, l.len() as int, k);
    lemma_diff_sound(s, es, es.len() as int, dst, root);
    let idx = choose|idx: int|
        0 <= idx < l.len() && (#[trigger] l[idx]).0 == k && l[idx].1 == to_map_upto(
            l,
            l.len() as int,
        )[k];
    assert(diff_item_sound(s, es, es.len() as int, l[idx]));
    assert(l[idx] == (k, m[k]));
}


/// The rows contributed by entries `i .. n`.
pub open spec fn suffix_rows(es: Seq<EntryModel>, i: int, n: int) -> Seq<int>
    decreases es, 0int, n,
{
    if n <= i || n > es.len() || i < 0 {
        Seq::empty()
    } else {
        suffix_rows(es, i, n - 1) + entry_rows(es[n - 1])
    }
}

pub proof fn lemma_all_rows_split(es: Seq<EntryModel>, i: int, n: int)
    requires
        0 <= i <= n <= es.len(),
    ensures
        all_rows(es, n) == all_rows(es, i) + suffix_rows(es, i, n),
    decreases n,
{
    if n == i {
        assert(all_rows(es, i) + suffix_rows(es, i, n) =~= all_rows(es, i));
    } else {
        lemma_all_rows_split(es, i, n - 1);
        assert(all_rows(es, i) + (suffix_rows(es, i, n - 1) + entry_rows(es[n - 1])) =~= (
        all_rows(es, i) + suffix_rows(es, i, n - 1)) + entry_rows(es[n - 1]));
    }
}

pub proof fn lemma_no_dup_split(a: Seq<int>, b: Seq<int>)
    requires
        (a + b).no_duplicates(),
    ensures
        a.no_duplicates(),
        b.no_duplicates(),
        forall|x: int| !(#[trigger] a.contains(x) && b.contains(x)),
{
    assert forall|i: int, j: int|
        0 <= i < a.len() && 0 <= j < a.len() && i != j implies a[i] != a[j] by {
        assert((a + b)[i] == a[i] && (a + b)[j] == a[j]);
    }
    assert forall|i: int, j: int|
        0 <= i < b.len() && 0 <= j < b.len() && i != j implies b[i] != b[j] by {
        assert((a + b)[a.len() + i] == b[i] && (a + b)[a.len() + j] == b[j]);
    }
    assert forall|x: int| !(#[trigger] a.contains(x) && b.contains(x)) by {
        if a.contains(x) && b.contains(x) {
            let i = choose|i: int| 0 <= i < a.len() && a[i] == x;
            let j = choose|j: int| 0 <= j < b.len() && b[j] == x;
            assert((a + b)[i] == x && (a + b)[a.len() + j] == x);
        }
    }
}

/// The first entry of the suffix contributes its own row first.
pub proof fn lemma_suffix_head(es: Seq<EntryModel>, i: int, n: int)
    requires
        0 <= i < n <= es.len(),
    ensures
        suffix_rows(es, i, n) == entry_rows(es[i]) + suffix_rows(es, i + 1, n),
    decreases n,
{
    if n == i + 1 {
        assert(suffix_rows(es, i, i) =~= Seq::<int>::empty());
        assert(suffix_rows(es, i + 1, i + 1) =~= Seq::<int>::empty());
        assert(suffix_rows(es, i, n) =~= entry_rows(es[i]) + suffix_rows(es, i + 1, n));
    } else {
        lemma_suffix_head(es, i, n - 1);
        assert((entry_rows(es[i]) + suffix_rows(es, i + 1, n - 1)) + entry_rows(es[n - 1])
            =~= entry_rows(es[i]) + (suffix_rows(es, i + 1, n - 1) + entry_rows(es[n - 1])));
    }
}

} // verus!
