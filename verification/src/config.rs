//! The mod configuration format: a declarative record listing which
//! shares and overrides to apply, with merge semantics. Keyed fields
//! are association lists from path hashes (or strings) to values;
//! merging extends set-valued entries and replaces scalar ones.

use vstd::prelude::*;

use crate::search::FileSet;

verus! {

/// The base mod configuration.
pub struct Config {
    /// Files that must never be unshared automatically.
    pub unshare_blacklist: Vec<u64>,
    /// Files reshared ahead of time, each to one target.
    pub preprocess_reshare: Vec<(u64, u64)>,
    /// Files shared to entries that exist in the base filesystem.
    pub share_to_vanilla: Vec<(u64, FileSet)>,
    /// Files shared to added entries.
    pub share_to_added: Vec<(u64, FileSet)>,
    /// Which file package each added file is loaded with.
    pub new_dir_files: Vec<(u64, Vec<u64>)>,
    /// Added directory infos.
    pub new_dir_infos: Vec<String>,
    /// Added directory infos based on existing ones.
    pub new_dir_infos_base: Vec<(String, String)>,
}

pub open spec fn fs_view(l: Seq<(u64, FileSet)>) -> Seq<(u64, Seq<u64>)> {
    l.map_values(|p: (u64, FileSet)| (p.0, p.1.0@))
}

pub open spec fn fl_view(l: Seq<(u64, Vec<u64>)>) -> Seq<(u64, Seq<u64>)> {
    l.map_values(|p: (u64, Vec<u64>)| (p.0, p.1@))
}

pub open spec fn ss_view(l: Seq<(String, String)>) -> Seq<(Seq<char>, Seq<char>)> {
    l.map_values(|p: (String, String)| (p.0@, p.1@))
}

/// First position of key `k` at or after `i`, or the length.
pub open spec fn find_key<V>(l: Seq<(u64, V)>, k: u64, i: int) -> int
    decreases l.len() - i,
{
    if i < 0 || i >= l.len() {
        l.len() as int
    } else if l[i].0 == k {
        i
    } else {
        find_key(l, k, i + 1)
    }
}

pub open spec fn find_skey<V>(l: Seq<(Seq<char>, V)>, k: Seq<char>, i: int) -> int
    decreases l.len() - i,
{
    if i < 0 || i >= l.len() {
        l.len() as int
    } else if l[i].0 == k {
        i
    } else {
        find_skey(l, k, i + 1)
    }
}

/// Replaces the value under an existing key, or appends a new entry.
pub open spec fn upsert_replace<V>(l: Seq<(u64, V)>, k: u64, v: V) -> Seq<(u64, V)> {
    let i = find_key(l, k, 0);
    if i < l.len() {
        l.update(i, (k, v))
    } else {
        l.push((k, v))
    }
}

/// Extends the sequence under an existing key, or appends a new entry.
pub open spec fn upsert_extend(l: Seq<(u64, Seq<u64>)>, k: u64, v: Seq<u64>) -> Seq<
    (u64, Seq<u64>),
> {
    let i = find_key(l, k, 0);
    if i < l.len() {
        l.update(i, (k, l[i].1 + v))
    } else {
        l.push((k, v))
    }
}

pub open spec fn upsert_sreplace(
    l: Seq<(Seq<char>, Seq<char>)>,
    k: Seq<char>,
    v: Seq<char>,
) -> Seq<(Seq<char>, Seq<char>)> {
    let i = find_skey(l, k, 0);
    if i < l.len() {
        l.update(i, (k, v))
    } else {
        l.push((k, v))
    }
}

pub open spec fn merge_replace(a: Seq<(u64, u64)>, b: Seq<(u64, u64)>, n: int) -> Seq<
    (u64, u64),
>
    decreases n,
{
    if n <= 0 || n > b.len() {
        a
    } else {
        upsert_replace(merge_replace(a, b, n - 1), b[n - 1].0, b[n - 1].1)
    }
}

pub open spec fn merge_extend(
    a: Seq<(u64, Seq<u64>)>,
    b: Seq<(u64, Seq<u64>)>,
    n: int,
) -> Seq<(u64, Seq<u64>)>
    decreases n,
{
    if n <= 0 || n > b.len() {
        a
    } else {
        upsert_extend(merge_extend(a, b, n - 1), b[n - 1].0, b[n - 1].1)
    }
}

pub open spec fn merge_sreplace(
    a: Seq<(Seq<char>, Seq<char>)>,
    b: Seq<(Seq<char>, Seq<char>)>,
    n: int,
) -> Seq<(Seq<char>, Seq<char>)>
    decreases n,
{
    if n <= 0 || n > b.len() {
        a
    } else {
        upsert_sreplace(merge_sreplace(a, b, n - 1), b[n - 1].0, b[n - 1].1)
    }
}

fn find_u64<V>(l: &Vec<(u64, V)>, k: u64, ghost_keys: Ghost<Seq<u64>>) -> (r: usize)
    requires
        ghost_keys@.len() == l@.len(),
        forall|j: int| 0 <= j < l@.len() ==> ghost_keys@[j] == #[trigger] l@[j].0,
    ensures
        r <= l@.len(),
        r < l@.len() ==> l@[r as int].0 == k,
        forall|j: int| 0 <= j < r ==> (#[trigger] l@[j].0) != k,
{
    let n = l.len();
    let mut i: usize = 0;
    while i < n
        invariant
            i <= n,
            n == l@.len(),
            forall|j: int| 0 <= j < i ==> (#[trigger] l@[j].0) != k,
        decreases n - i,
    {
        if l[i].0 == k {
            return i;
        }
        i += 1;
    }
    n
}

pub proof fn lemma_find_key_first<V>(l: Seq<(u64, V)>, k: u64, r: int)
    requires
        0 <= r <= l.len(),
        r < l.len() ==> l[r].0 == k,
        forall|j: int| 0 <= j < r ==> (#[trigger] l[j].0) != k,
        r == l.len() ==> forall|j: int| 0 <= j < l.len() ==> (#[trigger] l[j].0) != k,
    ensures
        find_key(l, k, 0) == r,
{
    lemma_find_key_from(l, k, 0, r);
}

pub proof fn lemma_find_key_from<V>(l: Seq<(u64, V)>, k: u64, i: int, r: int)
    requires
        0 <= i <= r <= l.len(),
        r < l.len() ==> l[r].0 == k,
        forall|j: int| 0 <= j < r ==> (#[trigger] l[j].0) != k,
        r == l.len() ==> forall|j: int| 0 <= j < l.len() ==> (#[trigger] l[j].0) != k,
    ensures
        find_key(l, k, i) == r,
    decreases l.len() - i,
{
    if i < r {
        lemma_find_key_from(l, k, i + 1, r);
    }
}


/// A key names at most one entry.
pub open spec fn keys_unique<V>(l: Seq<(u64, V)>) -> bool {
    forall|i: int, j: int| 0 <= i < j < l.len() ==> (#[trigger] l[i]).0 != (#[trigger] l[j]).0
}

pub open spec fn skeys_unique<V>(l: Seq<(Seq<char>, V)>) -> bool {
    forall|i: int, j: int| 0 <= i < j < l.len() ==> (#[trigger] l[i]).0 != (#[trigger] l[j]).0
}

pub proof fn lemma_find_key_props<V>(l: Seq<(u64, V)>, k: u64, i: int)
    requires
        0 <= i <= l.len(),
    ensures
        i <= find_key(l, k, i) <= l.len(),
        find_key(l, k, i) < l.len() ==> l[find_key(l, k, i)].0 == k,
        forall|j: int| i <= j < find_key(l, k, i) ==> (#[trigger] l[j]).0 != k,
    decreases l.len() - i,
{
    if i < l.len() && l[i].0 != k {
        lemma_find_key_props(l, k, i + 1);
    }
}

pub proof fn lemma_find_skey_props<V>(l: Seq<(Seq<char>, V)>, k: Seq<char>, i: int)
    requires
        0 <= i <= l.len(),
    ensures
        i <= find_skey(l, k, i) <= l.len(),
        find_skey(l, k, i) < l.len() ==> l[find_skey(l, k, i)].0 == k,
        forall|j: int| i <= j < find_skey(l, k, i) ==> (#[trigger] l[j]).0 != k,
    decreases l.len() - i,
{
    if i < l.len() && l[i].0 != k {
        lemma_find_skey_props(l, k, i + 1);
    }
}

/// An upsert keeps the keys duplicate-free: replacing keeps the key
/// set, appending adds a key that was absent.
pub proof fn lemma_upsert_replace_unique<V>(l: Seq<(u64, V)>, k: u64, v: V)
    requires
        keys_unique(l),
    ensures
        keys_unique(upsert_replace(l, k, v)),
{
    lemma_find_key_props(l, k, 0);
    let i = find_key(l, k, 0);
    if i < l.len() {
        let l2 = l.update(i, (k, v));
        assert forall|a: int, b: int|
            0 <= a < b < l2.len() implies (#[trigger] l2[a]).0 != (#[trigger] l2[b]).0 by {
            assert(l2[a].0 == l[a].0 && l2[b].0 == l[b].0);
        }
    } else {
        let l2 = l.push((k, v));
        assert forall|a: int, b: int|
            0 <= a < b < l2.len() implies (#[trigger] l2[a]).0 != (#[trigger] l2[b]).0 by {
            if b == l.len() {
                assert(l2[a].0 == l[a].0 && l2[b].0 == k);
            } else {
                assert(l2[a].0 == l[a].0 && l2[b].0 == l[b].0);
            }
        }
    }
}

pub proof fn lemma_upsert_extend_unique(l: Seq<(u64, Seq<u64>)>, k: u64, v: Seq<u64>)
    requires
        keys_unique(l),
    ensures
        keys_unique(upsert_extend(l, k, v)),
{
    lemma_find_key_props(l, k, 0);
    let i = find_key(l, k, 0);
    if i < l.len() {
        let l2 = l.update(i, (k, l[i].1 + v));
        assert forall|a: int, b: int|
            0 <= a < b < l2.len() implies (#[trigger] l2[a]).0 != (#[trigger] l2[b]).0 by {
            assert(l2[a].0 == l[a].0 && l2[b].0 == l[b].0);
        }
    } else {
        let l2 = l.push((k, v));
        assert forall|a: int, b: int|
            0 <= a < b < l2.len() implies (#[trigger] l2[a]).0 != (#[trigger] l2[b]).0 by {
            if b == l.len() {
                assert(l2[a].0 == l[a].0 && l2[b].0 == k);
            } else {
                assert(l2[a].0 == l[a].0 && l2[b].0 == l[b].0);
            }
        }
    }
}

pub proof fn lemma_upsert_sreplace_unique(
    l: Seq<(Seq<char>, Seq<char>)>,
    k: Seq<char>,
    v: Seq<char>,
)
    requires
        skeys_unique(l),
    ensures
        skeys_unique(upsert_sreplace(l, k, v)),
{
    lemma_find_skey_props(l, k, 0);
    let i = find_skey(l, k, 0);
    if i < l.len() {
        let l2 = l.update(i, (k, v));
        assert forall|a: int, b: int|
            0 <= a < b < l2.len() implies (#[trigger] l2[a]).0 != (#[trigger] l2[b]).0 by {
            assert(l2[a].0 == l[a].0 && l2[b].0 == l[b].0);
        }
    } else {
        let l2 = l.push((k, v));
        assert forall|a: int, b: int|
            0 <= a < b < l2.len() implies (#[trigger] l2[a]).0 != (#[trigger] l2[b]).0 by {
            if b == l.len() {
                assert(l2[a].0 == l[a].0 && l2[b].0 == k);
            } else {
                assert(l2[a].0 == l[a].0 && l2[b].0 == l[b].0);
            }
        }
    }
}

pub proof fn lemma_merge_replace_unique(a: Seq<(u64, u64)>, b: Seq<(u64, u64)>, n: int)
    requires
        keys_unique(a),
    ensures
        keys_unique(merge_replace(a, b, n)),
    decreases n,
{
    if 0 < n <= b.len() {
        lemma_merge_replace_unique(a, b, n - 1);
        lemma_upsert_replace_unique(merge_replace(a, b, n - 1), b[n - 1].0, b[n - 1].1);
    }
}

pub proof fn lemma_merge_extend_unique(
    a: Seq<(u64, Seq<u64>)>,
    b: Seq<(u64, Seq<u64>)>,
    n: int,
)
    requires
        keys_unique(a),
    ensures
        keys_unique(merge_extend(a, b, n)),
    decreases n,
{
    if 0 < n <= b.len() {
        lemma_merge_extend_unique(a, b, n - 1);
        lemma_upsert_extend_unique(merge_extend(a, b, n - 1), b[n - 1].0, b[n - 1].1);
    }
}

pub proof fn lemma_merge_sreplace_unique(
    a: Seq<(Seq<char>, Seq<char>)>,
    b: Seq<(Seq<char>, Seq<char>)>,
    n: int,
)
    requires
        skeys_unique(a),
    ensures
        skeys_unique(merge_sreplace(a, b, n)),
    decreases n,
{
    if 0 < n <= b.len() {
        lemma_merge_sreplace_unique(a, b, n - 1);
        lemma_upsert_sreplace_unique(merge_sreplace(a, b, n - 1), b[n - 1].0, b[n - 1].1);
    }
}

impl Config {
    /// The invariant the keyed fields carry over from their mapping
    /// reading: a key names at most one entry.
    pub open spec fn wf(&self) -> bool {
        &&& keys_unique(self.preprocess_reshare@)
        &&& keys_unique(fs_view(self.share_to_vanilla@))
        &&& keys_unique(fs_view(self.share_to_added@))
        &&& keys_unique(fl_view(self.new_dir_files@))
        &&& skeys_unique(ss_view(self.new_dir_infos_base@))
    }

    /// An empty configuration.
    pub fn new() -> (r: Self)
        ensures
            r.unshare_blacklist@ == Seq::<u64>::empty(),
            r.preprocess_reshare@ == Seq::<(u64, u64)>::empty(),
            r.share_to_vanilla@ == Seq::<(u64, FileSet)>::empty(),
            r.share_to_added@ == Seq::<(u64, FileSet)>::empty(),
            r.new_dir_files@ == Seq::<(u64, Vec<u64>)>::empty(),
            r.new_dir_infos@ == Seq::<String>::empty(),
            r.new_dir_infos_base@ == Seq::<(String, String)>::empty(),
            r.wf(),
    {
        Self {
            unshare_blacklist: Vec::new(),
            preprocess_reshare: Vec::new(),
            share_to_vanilla: Vec::new(),
            share_to_added: Vec::new(),
            new_dir_files: Vec::new(),
            new_dir_infos: Vec::new(),
            new_dir_infos_base: Vec::new(),
        }
    }

    /// Merges another configuration into this one: list fields are
    /// concatenated; set-valued keyed fields have matching keys'
    /// sets extended; scalar keyed fields have matching keys' values
    /// replaced by the other side's.
    pub fn merge(&mut self, other: Self)
        ensures
            final(self).unshare_blacklist@ == old(self).unshare_blacklist@
                + other.unshare_blacklist@,
            final(self).preprocess_reshare@ == merge_replace(
                old(self).preprocess_reshare@,
                other.preprocess_reshare@,
                other.preprocess_reshare@.len() as int,
            ),
            fs_view(final(self).share_to_vanilla@) == merge_extend(
                fs_view(old(self).share_to_vanilla@),
                fs_view(other.share_to_vanilla@),
                other.share_to_vanilla@.len() as int,
            ),
            fs_view(final(self).share_to_added@) == merge_extend(
                fs_view(old(self).share_to_added@),
                fs_view(other.share_to_added@),
                other.share_to_added@.len() as int,
            ),
            fl_view(final(self).new_dir_files@) == merge_extend(
                fl_view(old(self).new_dir_files@),
                fl_view(other.new_dir_files@),
                other.new_dir_files@.len() as int,
            ),
            final(self).new_dir_infos@.map_values(|x: String| x@) == old(
                self,
            ).new_dir_infos@.map_values(|x: String| x@) + other.new_dir_infos@.map_values(
                |x: String| x@,
            ),
            ss_view(final(self).new_dir_infos_base@) == merge_sreplace(
                ss_view(old(self).new_dir_infos_base@),
                ss_view(other.new_dir_infos_base@),
                other.new_dir_infos_base@.len() as int,
            ),
            old(self).wf() ==> final(self).wf(),
    {
        proof {
            if old(self).wf() {
                lemma_merge_replace_unique(
                    old(self).preprocess_reshare@,
                    other.preprocess_reshare@,
                    other.preprocess_reshare@.len() as int,
                );
                lemma_merge_extend_unique(
                    fs_view(old(self).share_to_vanilla@),
                    fs_view(other.share_to_vanilla@),
                    other.share_to_vanilla@.len() as int,
                );
                lemma_merge_extend_unique(
                    fs_view(old(self).share_to_added@),
                    fs_view(other.share_to_added@),
                    other.share_to_added@.len() as int,
                );
                lemma_merge_extend_unique(
                    fl_view(old(self).new_dir_files@),
                    fl_view(other.new_dir_files@),
                    other.new_dir_files@.len() as int,
                );
                lemma_merge_sreplace_unique(
                    ss_view(old(self).new_dir_infos_base@),
                    ss_view(other.new_dir_infos_base@),
                    other.new_dir_infos_base@.len() as int,
                );
            }
        }
        let Config {
            unshare_blacklist,
            preprocess_reshare,
            share_to_vanilla,
            share_to_added,
            new_dir_files,
            new_dir_infos,
            new_dir_infos_base,
        } = other;

        let mut unshare_blacklist = unshare_blacklist;
        self.unshare_blacklist.append(&mut unshare_blacklist);

        merge_replace_list(&mut self.preprocess_reshare, preprocess_reshare);

        merge_share_lists(&mut self.share_to_vanilla, share_to_vanilla);
        merge_share_lists(&mut self.share_to_added, share_to_added);
        merge_file_lists(&mut self.new_dir_files, new_dir_files);

        let mut new_dir_infos = new_dir_infos;
        let ghost i0 = self.new_dir_infos@.map_values(|x: String| x@);
        let ghost i1 = new_dir_infos@.map_values(|x: String| x@);
        self.new_dir_infos.append(&mut new_dir_infos);
        proof {
            assert(self.new_dir_infos@.map_values(|x: String| x@) =~= i0 + i1);
        }

        merge_base_lists(&mut self.new_dir_infos_base, new_dir_infos_base);
    }
}

impl Default for Config {
    fn default() -> (r: Self)
        ensures
            r.unshare_blacklist@ == Seq::<u64>::empty(),
            r.preprocess_reshare@ == Seq::<(u64, u64)>::empty(),
            r.share_to_vanilla@ == Seq::<(u64, FileSet)>::empty(),
            r.share_to_added@ == Seq::<(u64, FileSet)>::empty(),
            r.new_dir_files@ == Seq::<(u64, Vec<u64>)>::empty(),
            r.new_dir_infos@ == Seq::<String>::empty(),
            r.new_dir_infos_base@ == Seq::<(String, String)>::empty(),
    {
        Config::new()
    }
}


/// Folds the other side's scalar entries into `l`, replacing the
/// value under each key already present and appending the rest.
fn merge_replace_list(l: &mut Vec<(u64, u64)>, other: Vec<(u64, u64)>)
    ensures
        final(l)@ == merge_replace(old(l)@, other@, other@.len() as int),
{
    let ghost b0 = other@;
    let mut rest = other;
    let ghost mut j: int = 0;
    while rest.len() > 0
        invariant
            0 <= j <= b0.len(),
            rest@ == b0.subrange(j, b0.len() as int),
            l@ == merge_replace(old(l)@, b0, j),
        decreases rest@.len(),
    {
        let ghost rpre = rest@;
        let pair = rest.remove(0);
        proof {
            assert(rpre == b0.subrange(j, b0.len() as int));
            assert(b0.subrange(j, b0.len() as int)[0] == b0[j]);
            assert(pair == b0[j]);
        }
        let ghost cur = l@;
        let i = find_u64(&l, pair.0, Ghost(l@.map_values(|p: (u64, u64)| p.0)));
        if i < l.len() {
            l.remove(i);
            l.insert(i, pair);
            proof {
                lemma_find_key_first(cur, pair.0, i as int);
                assert(l@ =~= cur.update(i as int, pair));
            }
        } else {
            l.push(pair);
            proof {
                lemma_find_key_first(cur, pair.0, i as int);
            }
        }
        proof {
            j = j + 1;
            assert(l@ == upsert_replace(cur, pair.0, pair.1));
            assert(rest@ =~= b0.subrange(j, b0.len() as int));
        }
    }
    proof {
        assert(j == b0.len());
    }
}

/// Folds the other side's set-valued entries into `l`, extending the
/// set under each key already present and appending the rest.
fn merge_share_lists(l: &mut Vec<(u64, FileSet)>, other: Vec<(u64, FileSet)>)
    ensures
        fs_view(final(l)@) == merge_extend(
            fs_view(old(l)@),
            fs_view(other@),
            other@.len() as int,
        ),
{
    let ghost b0 = fs_view(other@);
    let mut rest = other;
    let ghost mut j: int = 0;
    proof {
        assert(rest@.map_values(|p: (u64, FileSet)| (p.0, p.1.0@)) =~= b0.subrange(
            j,
            b0.len() as int,
        ));
    }
    while rest.len() > 0
        invariant
            0 <= j <= b0.len(),
            fs_view(rest@) == b0.subrange(j, b0.len() as int),
            fs_view(l@) == merge_extend(fs_view(old(l)@), b0, j),
        decreases rest@.len(),
    {
        let ghost rpre = rest@;
        let pair = rest.remove(0);
        proof {
            assert(fs_view(rpre) == b0.subrange(j, b0.len() as int));
            assert(pair == rpre[0]);
            assert(fs_view(rpre)[0] == (rpre[0].0, rpre[0].1.0@));
            assert(b0.subrange(j, b0.len() as int)[0] == b0[j]);
            assert((pair.0, pair.1.0@) == b0[j]);
        }
        let ghost cur = fs_view(l@);
        let i = find_u64(&l, pair.0, Ghost(l@.map_values(|p: (u64, FileSet)| p.0)));
        if i < l.len() {
            let mut held = l.remove(i);
            let mut v = pair.1;
            held.1.0.append(&mut v.0);
            l.insert(i, held);
            proof {
                lemma_find_key_first(cur, pair.0, i as int);
                assert(cur[i as int].0 == pair.0);
                assert(fs_view(l@) =~= cur.update(i as int, (pair.0, cur[i as int].1
                    + pair.1.0@)));
                assert(fs_view(l@) == upsert_extend(cur, pair.0, pair.1.0@));
            }
        } else {
            l.push(pair);
            proof {
                lemma_find_key_first(cur, pair.0, i as int);
                assert(fs_view(l@) =~= cur.push((pair.0, pair.1.0@)));
                assert(fs_view(l@) == upsert_extend(cur, pair.0, pair.1.0@));
            }
        }
        proof {
            j = j + 1;
            assert forall|m: int| 0 <= m < rest@.len() implies fs_view(rest@)[m] == b0.subrange(
                j,
                b0.len() as int,
            )[m] by {
                assert(rest@[m] == rpre[m + 1]);
                assert(fs_view(rpre)[m + 1] == (rpre[m + 1].0, rpre[m + 1].1.0@));
                assert(fs_view(rpre)[m + 1] == b0.subrange(j - 1, b0.len() as int)[m + 1]);
                assert(b0.subrange(j - 1, b0.len() as int)[m + 1] == b0[j + m]);
                assert(b0.subrange(j, b0.len() as int)[m] == b0[j + m]);
            }
            assert(fs_view(rest@) =~= b0.subrange(j, b0.len() as int));
        }
    }
    proof {
        assert(j == b0.len());
    }
}

/// Folds the other side's file-list entries into `l`, extending the
/// list under each key already present and appending the rest.
fn merge_file_lists(l: &mut Vec<(u64, Vec<u64>)>, other: Vec<(u64, Vec<u64>)>)
    ensures
        fl_view(final(l)@) == merge_extend(
            fl_view(old(l)@),
            fl_view(other@),
            other@.len() as int,
        ),
{
    let ghost b0 = fl_view(other@);
    let mut rest = other;
    let ghost mut j: int = 0;
    proof {
        assert(rest@.map_values(|p: (u64, Vec<u64>)| (p.0, p.1@)) =~= b0.subrange(
            j,
            b0.len() as int,
        ));
    }
    while rest.len() > 0
        invariant
            0 <= j <= b0.len(),
            fl_view(rest@) == b0.subrange(j, b0.len() as int),
            fl_view(l@) == merge_extend(fl_view(old(l)@), b0, j),
        decreases rest@.len(),
    {
        let ghost rpre = rest@;
        let pair = rest.remove(0);
        proof {
            assert(fl_view(rpre) == b0.subrange(j, b0.len() as int));
            assert(pair == rpre[0]);
            assert(fl_view(rpre)[0] == (rpre[0].0, rpre[0].1@));
            assert(b0.subrange(j, b0.len() as int)[0] == b0[j]);
            assert((pair.0, pair.1@) == b0[j]);
        }
        let ghost cur = fl_view(l@);
        let i = find_u64(&l, pair.0, Ghost(l@.map_values(|p: (u64, Vec<u64>)| p.0)));
        if i < l.len() {
            let mut held = l.remove(i);
            let mut v = pair.1;
            held.1.append(&mut v);
            l.insert(i, held);
            proof {
                lemma_find_key_first(cur, pair.0, i as int);
                assert(fl_view(l@) =~= cur.update(i as int, (pair.0, cur[i as int].1
                    + pair.1@)));
                assert(fl_view(l@) == upsert_extend(cur, pair.0, pair.1@));
            }
        } else {
            l.push(pair);
            proof {
                lemma_find_key_first(cur, pair.0, i as int);
                assert(fl_view(l@) =~= cur.push((pair.0, pair.1@)));
                assert(fl_view(l@) == upsert_extend(cur, pair.0, pair.1@));
            }
        }
        proof {
            j = j + 1;
            assert forall|m: int| 0 <= m < rest@.len() implies fl_view(rest@)[m] == b0.subrange(
                j,
                b0.len() as int,
            )[m] by {
                assert(rest@[m] == rpre[m + 1]);
                assert(fl_view(rpre)[m + 1] == (rpre[m + 1].0, rpre[m + 1].1@));
                assert(fl_view(rpre)[m + 1] == b0.subrange(j - 1, b0.len() as int)[m + 1]);
                assert(b0.subrange(j - 1, b0.len() as int)[m + 1] == b0[j + m]);
                assert(b0.subrange(j, b0.len() as int)[m] == b0[j + m]);
            }
            assert(fl_view(rest@) =~= b0.subrange(j, b0.len() as int));
        }
    }
    proof {
        assert(j == b0.len());
    }
}

fn find_string(l: &Vec<(String, String)>, k: &String) -> (r: usize)
    ensures
        r <= l@.len(),
        r < l@.len() ==> l@[r as int].0@ == k@,
        forall|j: int| 0 <= j < r ==> (#[trigger] l@[j].0)@ != k@,
{
    let n = l.len();
    let mut i: usize = 0;
    while i < n
        invariant
            i <= n,
            n == l@.len(),
            forall|j: int| 0 <= j < i ==> (#[trigger] l@[j].0)@ != k@,
        decreases n - i,
    {
        if l[i].0.eq(k) {
            return i;
        }
        i += 1;
    }
    n
}

pub proof fn lemma_find_skey_from<V>(l: Seq<(Seq<char>, V)>, k: Seq<char>, i: int, r: int)
    requires
        0 <= i <= r <= l.len(),
        r < l.len() ==> l[r].0 == k,
        forall|j: int| 0 <= j < r ==> (#[trigger] l[j].0) != k,
        r == l.len() ==> forall|j: int| 0 <= j < l.len() ==> (#[trigger] l[j].0) != k,
    ensures
        find_skey(l, k, i) == r,
    decreases l.len() - i,
{
    if i < r {
        lemma_find_skey_from(l, k, i + 1, r);
    }
}

/// Folds the other side's entries into `l`, replacing the value under
/// each key already present and appending the rest.
fn merge_base_lists(l: &mut Vec<(String, String)>, other: Vec<(String, String)>)
    ensures
        ss_view(final(l)@) == merge_sreplace(
            ss_view(old(l)@),
            ss_view(other@),
            other@.len() as int,
        ),
{
    let ghost b0 = ss_view(other@);
    let mut rest = other;
    let ghost mut j: int = 0;
    proof {
        assert(rest@.map_values(|p: (String, String)| (p.0@, p.1@)) =~= b0.subrange(
            j,
            b0.len() as int,
        ));
    }
    while rest.len() > 0
        invariant
            0 <= j <= b0.len(),
            ss_view(rest@) == b0.subrange(j, b0.len() as int),
            ss_view(l@) == merge_sreplace(ss_view(old(l)@), b0, j),
        decreases rest@.len(),
    {
        let ghost rpre = rest@;
        let pair = rest.remove(0);
        proof {
            assert(ss_view(rpre) == b0.subrange(j, b0.len() as int));
            assert(pair == rpre[0]);
            assert(ss_view(rpre)[0] == (rpre[0].0@, rpre[0].1@));
            assert(b0.subrange(j, b0.len() as int)[0] == b0[j]);
            assert((pair.0@, pair.1@) == b0[j]);
        }
        let ghost cur = ss_view(l@);
        let i = find_string(&l, &pair.0);
        if i < l.len() {
            l.remove(i);
            l.insert(i, pair);
            proof {
                lemma_find_skey_from(cur, cur[i as int].0, 0, i as int);
                assert(ss_view(l@) =~= cur.update(i as int, (cur[i as int].0, b0[j].1)));
                assert(ss_view(l@) == upsert_sreplace(cur, b0[j].0, b0[j].1));
            }
        } else {
            l.push(pair);
            proof {
                lemma_find_skey_from(cur, b0[j].0, 0, i as int);
                assert(ss_view(l@) =~= cur.push((b0[j].0, b0[j].1)));
                assert(ss_view(l@) == upsert_sreplace(cur, b0[j].0, b0[j].1));
            }
        }
        proof {
            j = j + 1;
            assert forall|m: int| 0 <= m < rest@.len() implies ss_view(rest@)[m] == b0.subrange(
                j,
                b0.len() as int,
            )[m] by {
                assert(rest@[m] == rpre[m + 1]);
                assert(ss_view(rpre)[m + 1] == (rpre[m + 1].0@, rpre[m + 1].1@));
                assert(ss_view(rpre)[m + 1] == b0.subrange(j - 1, b0.len() as int)[m + 1]);
                assert(b0.subrange(j - 1, b0.len() as int)[m + 1] == b0[j + m]);
                assert(b0.subrange(j, b0.len() as int)[m] == b0[j + m]);
            }
            assert(ss_view(rest@) =~= b0.subrange(j, b0.len() as int));
        }
    }
    proof {
        assert(j == b0.len());
    }
}

} // verus!
