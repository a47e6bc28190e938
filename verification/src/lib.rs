//! Reconciliation of two hierarchical namespaces: a read-only,
//! hash-indexed virtual directory tree (the search section of an
//! archive) against a destination that is either another subtree of the
//! same index or a snapshot of a real on-disk directory. The diff
//! engine reports every entry present under the source but absent from
//! the destination, so a consumer knows which files it must synthesize.

use vstd::prelude::*;

pub mod config;
pub mod generate;
pub mod labels;
pub mod search;
pub mod hashing;
pub mod index;

verus! {

pub use crate::config::Config;
use crate::hashing::{
    str_hash, join_hash, hash_str, join_hashes, spec_components, split_components, hex_val,
    first_dot, lemma_first_dot_ge, comp_hex_ok, is_hex_prefixed_spec, is_hex_prefixed, find_dot,
    parse_hex_range, lemma_hex_val_bound, pow16,
};

/// The hash value a path component contributes on its own: a literal
/// hex-encoded hash is read back as a value; anything else is hashed.
pub open spec fn label_val(c: Seq<char>) -> u64 {
    if is_hex_prefixed_spec(c) {
        hex_val(c.subrange(2, c.len() as int), c.len() - 2) as u64
    } else {
        str_hash(c)
    }
}

/// The fold that `path_to_hash` computes over the path's components:
/// the first contributing component stands alone; each later one is
/// chained onto the accumulator with the path separator. A component
/// that is a literal hex hash and carries an extension separator
/// contributes only the hash before the separator, because full-path
/// hashes in this domain already encode the extension.
pub open spec fn path_fold(cs: Seq<Seq<char>>, n: int) -> u64
    decreases n,
{
    if n <= 0 || n > cs.len() {
        0
    } else {
        let acc = path_fold(cs, n - 1);
        let c = cs[n - 1];
        if acc == 0 {
            label_val(c)
        } else if is_hex_prefixed_spec(c) && first_dot(c, 0) < c.len() {
            join_hash(acc, hex_val(c.subrange(2, first_dot(c, 0)), first_dot(c, 0) - 2) as u64)
        } else {
            join_hash(acc, label_val(c))
        }
    }
}

/// The inputs on which every hex-encoded component is well formed: the
/// digits read are nonempty hex, and at most sixteen of them.
pub open spec fn path_ok(cs: Seq<Seq<char>>, n: int) -> bool
    decreases n,
{
    if n <= 0 || n > cs.len() {
        true
    } else {
        &&& path_ok(cs, n - 1)
        &&& {
            let acc = path_fold(cs, n - 1);
            let c = cs[n - 1];
            if acc != 0 && is_hex_prefixed_spec(c) && first_dot(c, 0) < c.len() {
                comp_hex_ok(c.subrange(2, first_dot(c, 0)))
            } else {
                is_hex_prefixed_spec(c) ==> comp_hex_ok(c.subrange(2, c.len() as int))
            }
        }
    }
}

pub proof fn lemma_path_ok_down(cs: Seq<Seq<char>>, n: int, i: int)
    requires
        path_ok(cs, n),
        0 <= i <= n <= cs.len(),
    ensures
        path_ok(cs, i),
    decreases n - i,
{
    if i < n {
        lemma_path_ok_down(cs, n - 1, i);
    }
}

/// Converts a slash-separated path to its hash where every literal
/// hex component is well formed, and reports the ill-formed inputs —
/// those on which the digests cannot be read back — as `None`.
pub fn try_path_to_hash(path: &str) -> (r: Option<u64>)
    ensures
        match r {
            Option::Some(v) => path_ok(
                spec_components(path@),
                spec_components(path@).len() as int,
            ) && v == path_fold(spec_components(path@), spec_components(path@).len() as int),
            Option::None => !path_ok(
                spec_components(path@),
                spec_components(path@).len() as int,
            ),
        },
{
    let comps = split_components(path);
    let ghost cs = spec_components(path@);
    let n = comps.len();
    proof {
        assert(comps@.map_values(|x: String| x@).len() == n);
    }
    let mut acc: u64 = 0;
    let mut i: usize = 0;
    while i < n
        invariant
            i <= n,
            n == cs.len(),
            cs == comps@.map_values(|x: String| x@),
            cs == spec_components(path@),
            path_ok(cs, i as int),
            acc == path_fold(cs, i as int),
        decreases n - i,
    {
        let c: &String = &comps[i];
        proof {
            assert(c@ == cs[i as int]);
        }
        let clen = c.as_str().unicode_len();
        let hexp = is_hex_prefixed(c.as_str());
        if acc == 0 {
            if hexp {
                if !crate::hashing::check_hex_range(c.as_str(), 2, clen) {
                    proof {
                        lemma_path_ok_not(cs, i as int);
                    }
                    return Option::None;
                }
                proof {
                    lemma_hex_val_bound(c@.subrange(2, c@.len() as int), c@.len() - 2);
                    crate::hashing::lemma_pow16_mono(c@.len() - 2, 16);
                    reveal_with_fuel(pow16, 17);
                }
                acc = parse_hex_range(c.as_str(), 2, clen);
            } else {
                acc = hash_str(c.as_str());
            }
        } else {
            let v: u64;
            if hexp {
                let dp = find_dot(c.as_str());
                proof {
                    lemma_first_dot_ge(c@, 0);
                }
                if dp < clen {
                    if !crate::hashing::check_hex_range(c.as_str(), 2, dp) {
                        proof {
                            lemma_path_ok_not(cs, i as int);
                        }
                        return Option::None;
                    }
                    proof {
                        lemma_hex_val_bound(c@.subrange(2, first_dot(c@, 0)), first_dot(c@, 0) - 2);
                        crate::hashing::lemma_pow16_mono(first_dot(c@, 0) - 2, 16);
                        reveal_with_fuel(pow16, 17);
                    }
                    v = parse_hex_range(c.as_str(), 2, dp);
                } else {
                    if !crate::hashing::check_hex_range(c.as_str(), 2, clen) {
                        proof {
                            lemma_path_ok_not(cs, i as int);
                        }
                        return Option::None;
                    }
                    proof {
                        lemma_hex_val_bound(c@.subrange(2, c@.len() as int), c@.len() - 2);
                        crate::hashing::lemma_pow16_mono(c@.len() - 2, 16);
                        reveal_with_fuel(pow16, 17);
                    }
                    v = parse_hex_range(c.as_str(), 2, clen);
                }
            } else {
                v = hash_str(c.as_str());
            }
            acc = join_hashes(acc, v);
        }
        i += 1;
    }
    Option::Some(acc)
}

/// A prefix that fails its own component check falsifies the whole
/// condition.
pub proof fn lemma_path_ok_not(cs: Seq<Seq<char>>, i: int)
    requires
        0 <= i < cs.len(),
        !path_ok(cs, i + 1),
    ensures
        !path_ok(cs, cs.len() as int),
{
    if path_ok(cs, cs.len() as int) {
        lemma_path_ok_down(cs, cs.len() as int, i + 1);
    }
}

/// Converts a slash-separated path to its hash, allowing an inter-mix
/// of literal hex hashes and plain strings on a component basis. The
/// result is agnostic of repeated separators, since it is computed
/// over the path's components; separators themselves are not
/// components, so a path with none (the bare root, or only slashes)
/// yields the reserved root-like value zero. The root folder of the
/// search section is named by the hash of the literal root marker
/// instead, which the traversal resolves directly.
pub fn path_to_hash(path: &str) -> (r: u64)
    requires
        path_ok(spec_components(path@), spec_components(path@).len() as int),
    ensures
        r == path_fold(spec_components(path@), spec_components(path@).len() as int),
{
    if let Option::Some(v) = try_path_to_hash(path) {
        v
    } else {
        proof {
            assert(false);
        }
        0
    }
}

} // verus!
