//! The label map: the process-wide table associating path hashes with
//! their original string labels, and the reconstruction pass that
//! repairs it after loading an index whose labels are incomplete.

use vstd::prelude::*;

use crate::generate::{
    flatten_entries, spec_flatten, walk_search_section, entries_ok, entries_list_ok, EntryModel,
    GenerateError, view_of, entry_files, lemma_entries_list_ok_index,
};
use crate::hashing::{str_hash, hash_str, spec_components, split_components};
use crate::index::SearchIndex;

verus! {

#[verifier::external_type_specification]
#[verifier::external_body]
pub struct ExLabelMap(hash40::label_map::LabelMap);

/// What a label map holds: for each hash key, the one label stored for
/// it. The map is bidirectional underneath, so a label is likewise
/// held by at most one key.
pub uninterp spec fn label_contents(m: hash40::label_map::LabelMap) -> Map<u64, Seq<char>>;

/// The contents after one label is registered: the pair
/// `(str_hash(l), l)` is inserted, and any pair that shares the hash
/// or shares the label is displaced, both directions of the underlying
/// map staying one-to-one.
pub open spec fn spec_add_label(m: Map<u64, Seq<char>>, l: Seq<char>) -> Map<u64, Seq<char>> {
    Map::new(
        |k: u64| k == str_hash(l) || (m.contains_key(k) && m[k] != l),
        |k: u64|
            if k == str_hash(l) {
                l
            } else {
                m[k]
            },
    )
}

/// Relies on `LabelMap::label_of`: a lookup of the hash in the
/// underlying bidirectional map, returning a copy of the stored label.
#[verifier::external_body]
pub fn label_of(m: &hash40::label_map::LabelMap, h: u64) -> (r: Option<String>)
    ensures
        match r {
            Option::Some(s) => label_contents(*m).contains_key(h) && s@ == label_contents(*m)[h],
            Option::None => !label_contents(*m).contains_key(h),
        },
{
    m.label_of(hash40::Hash40(h))
}

/// Relies on `LabelMap::add_labels` with one label: it inserts the
/// pair `(Hash40::new(l), l)` into the bidirectional map, displacing
/// any pair that shares either side.
#[verifier::external_body]
pub fn add_label(m: &mut hash40::label_map::LabelMap, label: String)
    ensures
        label_contents(*final(m)) == spec_add_label(label_contents(*old(m)), label@),
{
    m.add_labels(vec![label])
}

/// Registering the same label twice in a row changes nothing beyond
/// the first registration.
pub proof fn lemma_add_label_idempotent(m: Map<u64, Seq<char>>, l: Seq<char>)
    ensures
        spec_add_label(spec_add_label(m, l), l) == spec_add_label(m, l),
{
    assert(spec_add_label(spec_add_label(m, l), l) =~= spec_add_label(m, l));
}

/// The contents after every component of a label path is registered
/// in order.
pub open spec fn spec_add_components(
    m: Map<u64, Seq<char>>,
    cs: Seq<Seq<char>>,
    n: int,
) -> Map<u64, Seq<char>>
    decreases n,
{
    if n <= 0 || n > cs.len() {
        m
    } else {
        spec_add_label(spec_add_components(m, cs, n - 1), cs[n - 1])
    }
}

/// The label that the reconstruction builds for the row `row`: the
/// stored label of its full path if one exists, else its parent's
/// label (looked up, or built recursively from the parent's own row)
/// joined with its own name's label by the separator. `fuel` bounds
/// the parent recursion; an acyclic parent chain is shorter than the
/// path table.
pub open spec fn spec_build_path(
    s: &SearchIndex,
    m: Map<u64, Seq<char>>,
    row: int,
    fuel: nat,
) -> Option<Seq<char>>
    decreases fuel,
{
    if fuel == 0 || !(0 <= row < s.paths@.len()) {
        Option::None
    } else if m.contains_key(s.paths@[row].path) {
        Option::Some(m[s.paths@[row].path])
    } else if !m.contains_key(s.paths@[row].file_name) {
        Option::None
    } else {
        let name = m[s.paths@[row].file_name];
        if m.contains_key(s.paths@[row].parent) {
            Option::Some(m[s.paths@[row].parent] + "/"@ + name)
        } else if !s.spec_has_row(s.paths@[row].parent) {
            Option::None
        } else {
            match spec_build_path(s, m, s.spec_row_of(s.paths@[row].parent), (fuel - 1) as nat) {
                Option::Some(parent) => Option::Some(parent + "/"@ + name),
                Option::None => Option::None,
            }
        }
    }
}

/// What one file row does to the label map: a row whose full path
/// already has a label has that label's components registered one by
/// one; otherwise the reconstructed label, when one can be built, is
/// registered whole and then by components, so everything the pass
/// derives is individually resolvable the moment it is added.
pub open spec fn spec_fill_step(
    s: &SearchIndex,
    m: Map<u64, Seq<char>>,
    row: int,
    fuel: nat,
) -> Map<u64, Seq<char>> {
    if !(0 <= row < s.paths@.len()) {
        m
    } else if m.contains_key(s.paths@[row].path) {
        let cs = spec_components(m[s.paths@[row].path]);
        spec_add_components(m, cs, cs.len() as int)
    } else {
        match spec_build_path(s, m, row, fuel) {
            Option::Some(l) => {
                let m1 = spec_add_label(m, l);
                let cs = spec_components(l);
                spec_add_components(m1, cs, cs.len() as int)
            },
            Option::None => m,
        }
    }
}

/// The fold of `spec_fill_step` over the file rows, in discovery
/// order.
pub open spec fn spec_fill(
    s: &SearchIndex,
    m: Map<u64, Seq<char>>,
    rows: Seq<int>,
    n: int,
    fuel: nat,
) -> Map<u64, Seq<char>>
    decreases n,
{
    if n <= 0 || n > rows.len() {
        m
    } else {
        spec_fill_step(s, spec_fill(s, m, rows, n - 1, fuel), rows[n - 1], fuel)
    }
}

/// Builds a label for the row `row` from already-known labels, without
/// touching the map: the stored label of the full path if present,
/// else parent label (recursively) and name label joined by `/`.
fn build_new_path(
    search: &SearchIndex,
    row: usize,
    label_map: &hash40::label_map::LabelMap,
    fuel: usize,
) -> (r: Option<String>)
    requires
        search.wf(),
        row < search.paths@.len(),
    ensures
        match r {
            Option::Some(l) => spec_build_path(
                search,
                label_contents(*label_map),
                row as int,
                fuel as nat,
            ) == Option::Some(l@),
            Option::None => spec_build_path(
                search,
                label_contents(*label_map),
                row as int,
                fuel as nat,
            ) is None,
        },
    decreases fuel,
{
    if fuel == 0 {
        return Option::None;
    }
    let pe = search.paths[row];
    if let Option::Some(label) = label_of(label_map, pe.path) {
        return Option::Some(label);
    }
    let name = match label_of(label_map, pe.file_name) {
        Option::None => {
            return Option::None;
        },
        Option::Some(n) => n,
    };
    let parent = if let Option::Some(p) = label_of(label_map, pe.parent) {
        p
    } else {
        match search.resolve_path_row(pe.parent) {
            Option::None => {
                return Option::None;
            },
            Option::Some(pi) => {
                match build_new_path(search, pi, label_map, fuel - 1) {
                    Option::None => {
                        return Option::None;
                    },
                    Option::Some(p) => p,
                }
            },
        }
    };
    let joined = parent.concat("/");
    let full = joined.concat(name.as_str());
    Option::Some(full)
}

/// Walks every file entry of the index and repairs the label map:
/// a file whose full-path label is known has each of that label's
/// components registered as an independently resolvable label; a file
/// without one has its label reconstructed from ancestor and name
/// labels where possible, and registered together with its components.
/// Files for which no label can be built are left unresolved, which is
/// expected and non-fatal.
pub fn fill_label_map_from_search(
    search: &SearchIndex,
    label_map: &mut hash40::label_map::LabelMap,
) -> (r: Result<(), GenerateError>)
    requires
        search.wf(),
    ensures
        match r {
            Result::Ok(u) => exists|es: Seq<EntryModel>|
                {
                    &&& entries_ok(
                        search,
                        search.spec_first_child(crate::generate::root_hash()),
                        Option::<nat>::None,
                        es,
                    )
                    &&& label_contents(*final(label_map)) == spec_fill(
                        search,
                        label_contents(*old(label_map)),
                        spec_flatten(es, es.len() as int),
                        spec_flatten(es, es.len() as int).len() as int,
                        search.paths@.len(),
                    )
                },
            Result::Err(e) => {
                &&& (e == GenerateError::InvalidFolder || e == GenerateError::Lookup || e
                    == GenerateError::InvalidPathIndex)
                &&& label_contents(*final(label_map)) == label_contents(*old(label_map))
            },
        },
        (search.spec_has_folder(crate::generate::root_hash()) && exists|es_w: Seq<EntryModel>|
            {
                &&& entries_ok(
                    search,
                    search.spec_first_child(crate::generate::root_hash()),
                    Option::<nat>::None,
                    es_w,
                )
                &&& crate::generate::rows_all(es_w).no_duplicates()
            }) ==> r is Ok,
{
    let root = hash_str("/");
    let entries = match walk_search_section(search, root, Option::None) {
        Result::Err(e) => {
            proof {
                if search.spec_has_folder(crate::generate::root_hash()) && exists|
                    es_w: Seq<EntryModel>,
                |
                    {
                        &&& entries_ok(
                            search,
                            search.spec_first_child(crate::generate::root_hash()),
                            Option::<nat>::None,
                            es_w,
                        )
                        &&& crate::generate::rows_all(es_w).no_duplicates()
                    } {
                    let w = choose|es_w: Seq<EntryModel>|
                        {
                            &&& entries_ok(
                                search,
                                search.spec_first_child(crate::generate::root_hash()),
                                Option::<nat>::None,
                                es_w,
                            )
                            &&& crate::generate::rows_all(es_w).no_duplicates()
                        };
                    assert(entries_ok(
                        search,
                        search.spec_first_child(root),
                        crate::generate::depth_view(Option::<usize>::None),
                        w,
                    ) && crate::generate::rows_all(w).no_duplicates());
                    assert(false);
                }
            }
            return Result::Err(e);
        },
        Result::Ok(es) => es,
    };
    let files = flatten_entries(&entries);
    let ghost es = view_of(entries@);
    let ghost rows = spec_flatten(es, es.len() as int);
    let ghost m0 = label_contents(*label_map);
    let fuel = search.paths.len();
    proof {
        lemma_flatten_file_rows(search, es, es.len() as int);
        assert(files@.map_values(|x: usize| x as int) == rows);
    }
    let n = files.len();
    let mut j: usize = 0;
    while j < n
        invariant
            search.wf(),
            n == files@.len(),
            rows == files@.map_values(|x: usize| x as int),
            fuel == search.paths@.len(),
            forall|k: int| 0 <= k < rows.len() ==> 0 <= #[trigger] rows[k] < search.paths@.len(),
            j <= n,
            label_contents(*label_map) == spec_fill(search, m0, rows, j as int, fuel as nat),
        decreases n - j,
    {
        let row = files[j];
        let ghost m_cur = label_contents(*label_map);
        proof {
            assert(rows[j as int] == row as int);
        }
        let pe = search.paths[row];
        match label_of(label_map, pe.path) {
            Option::Some(label) => {
                let comps = split_components(label.as_str());
                let ghost cs = spec_components(label@);
                let cn = comps.len();
                let mut k: usize = 0;
                while k < cn
                    invariant
                        cn == comps@.len(),
                        cs == comps@.map_values(|x: String| x@),
                        k <= cn,
                        label_contents(*label_map) == spec_add_components(
                            m_cur,
                            cs,
                            k as int,
                        ),
                    decreases cn - k,
                {
                    let piece = comps[k].clone();
                    proof {
                        assert(piece@ == cs[k as int]);
                    }
                    add_label(label_map, piece);
                    k += 1;
                }
                proof {
                    assert(label_contents(*label_map) == spec_fill_step(
                        search,
                        m_cur,
                        row as int,
                        fuel as nat,
                    ));
                }
            },
            Option::None => {
                match build_new_path(search, row, label_map, fuel) {
                    Option::Some(label) => {
                        let comps = split_components(label.as_str());
                        let ghost l_v = label@;
                        let ghost cs = spec_components(l_v);
                        add_label(label_map, label);
                        let ghost m_mid = label_contents(*label_map);
                        let cn = comps.len();
                        let mut k: usize = 0;
                        while k < cn
                            invariant
                                cn == comps@.len(),
                                cs == comps@.map_values(|x: String| x@),
                                k <= cn,
                                label_contents(*label_map) == spec_add_components(
                                    m_mid,
                                    cs,
                                    k as int,
                                ),
                            decreases cn - k,
                        {
                            let piece = comps[k].clone();
                            proof {
                                assert(piece@ == cs[k as int]);
                            }
                            add_label(label_map, piece);
                            k += 1;
                        }
                    },
                    Option::None => {},
                }
                proof {
                    assert(label_contents(*label_map) == spec_fill_step(
                        search,
                        m_cur,
                        row as int,
                        fuel as nat,
                    ));
                }
            },
        }
        j += 1;
    }
    proof {
        assert(label_contents(*label_map) == spec_fill(
            search,
            m0,
            rows,
            rows.len() as int,
            fuel as nat,
        ));
    }
    Result::Ok(())
}

/// Every row that flattening yields is a file row of the table.
pub proof fn lemma_flatten_file_rows(s: &SearchIndex, es: Seq<EntryModel>, n: int)
    requires
        entries_list_ok(s, Option::<nat>::None, es, n),
        0 <= n <= es.len(),
    ensures
        forall|k: int|
            0 <= k < spec_flatten(es, n).len() ==> 0 <= #[trigger] spec_flatten(es, n)[k]
                < s.paths@.len(),
    decreases es, n,
{
    if n > 0 {
        lemma_flatten_file_rows(s, es, n - 1);
        lemma_entries_list_ok_index(s, Option::<nat>::None, es, n, n - 1);
        assert(spec_flatten(es, n) == spec_flatten(es, n - 1) + entry_files(es[n - 1]));
        match es[n - 1] {
            EntryModel::File { row } => {
                assert(entry_files(es[n - 1]) =~= seq![row]);
            },
            EntryModel::Folder { row, children } => {
                assert(decreases_to!(es => es[n - 1]));
                lemma_flatten_file_rows(s, children, children.len() as int);
                assert(entry_files(es[n - 1]) == spec_flatten(children, children.len() as int));
            },
        }
    }
}

} // verus!
