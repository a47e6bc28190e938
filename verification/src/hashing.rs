use vstd::prelude::*;

verus! {

/// The 40-bit digest that the hash40 algorithm derives from a string:
/// a crc32 checksum with the byte length packed into the upper bits.
/// The algorithm is left unnamed here; `hash_str` is the only way to
/// compute it, and every contract speaks of this function.
pub uninterp spec fn str_hash(s: Seq<char>) -> u64;

/// The digest of two already-hashed path pieces chained with the `/`
/// separator, as `hash40::Hash40::join_path` combines them. It depends
/// on the two hash values alone.
pub uninterp spec fn join_hash(parent: u64, child: u64) -> u64;

/// Relies on `hash40::Hash40::new`: a pure digest of the characters of
/// the string, independent of any ambient state. The byte length,
/// taken modulo 256, is packed above bit 32, and a character encodes
/// to at most four bytes, so a short nonempty string never digests to
/// zero.
#[verifier::external_body]
pub fn hash_str(s: &str) -> (r: u64)
    ensures
        r == str_hash(s@),
        1 <= s@.len() < 64 ==> r != 0,
{
    hash40::Hash40::new(s).0
}

/// Relies on `hash40::Hash40::join_path`: combines the checksums and
/// lengths of two hashes with a `/` between them, a function of the two
/// hash values alone.
#[verifier::external_body]
pub fn join_hashes(parent: u64, child: u64) -> (r: u64)
    ensures
        r == join_hash(parent, child),
{
    hash40::Hash40(parent).join_path(hash40::Hash40(child)).0
}


/// The slash-separated components of a path string, empty pieces
/// dropped, so that leading, trailing and doubled separators do not
/// produce empty components.
pub open spec fn spec_components(s: Seq<char>) -> Seq<Seq<char>> {
    split_rec(s, 0, Seq::empty(), Seq::empty())
}

pub open spec fn split_rec(
    s: Seq<char>,
    i: int,
    cur: Seq<char>,
    acc: Seq<Seq<char>>,
) -> Seq<Seq<char>>
    decreases s.len() - i,
{
    if i < 0 || i >= s.len() {
        if cur.len() == 0 {
            acc
        } else {
            acc.push(cur)
        }
    } else if s[i] == '/' {
        if cur.len() == 0 {
            split_rec(s, i + 1, Seq::empty(), acc)
        } else {
            split_rec(s, i + 1, Seq::empty(), acc.push(cur))
        }
    } else {
        split_rec(s, i + 1, cur.push(s[i]), acc)
    }
}

/// Splits a path on `/`, dropping empty pieces.
pub fn split_components(s: &str) -> (out: Vec<String>)
    ensures
        out@.map_values(|x: String| x@) == spec_components(s@),
{
    let n = s.unicode_len();
    let mut out: Vec<String> = Vec::new();
    let mut start: usize = 0;
    let mut i: usize = 0;
    proof {
        assert(out@.map_values(|x: String| x@) =~= Seq::<Seq<char>>::empty());
        assert(s@.subrange(0, 0) =~= Seq::<char>::empty());
    }
    while i < n
        invariant
            start <= i <= n,
            n == s@.len(),
            spec_components(s@) == split_rec(
                s@,
                i as int,
                s@.subrange(start as int, i as int),
                out@.map_values(|x: String| x@),
            ),
        decreases n - i,
    {
        let c = s.get_char(i);
        if c == '/' {
            if start < i {
                let piece = s.substring_char(start, i);
                let owned = piece.to_owned();
                let ghost acc0 = out@.map_values(|x: String| x@);
                proof {
                    assert(owned@ == s@.subrange(start as int, i as int));
                }
                out.push(owned);
                proof {
                    assert(out@.map_values(|x: String| x@) =~= acc0.push(
                        s@.subrange(start as int, i as int),
                    ));
                }
            }
            start = i + 1;
            i = i + 1;
            proof {
                assert(s@.subrange(start as int, i as int) =~= Seq::<char>::empty());
            }
        } else {
            i = i + 1;
            proof {
                assert(s@.subrange(start as int, i as int) =~= s@.subrange(
                    start as int,
                    i as int - 1,
                ).push(s@[i as int - 1]));
            }
        }
    }
    if start < n {
        let piece = s.substring_char(start, n);
        let owned = piece.to_owned();
        let ghost acc0 = out@.map_values(|x: String| x@);
        out.push(owned);
        proof {
            assert(owned@ == s@.subrange(start as int, n as int));
            assert(out@.map_values(|x: String| x@) =~= acc0.push(
                s@.subrange(start as int, n as int),
            ));
        }
    }
    out
}

pub open spec fn is_hex_digit(c: char) -> bool {
    (('0' as int) <= (c as int) <= ('9' as int)) || (('a' as int) <= (c as int) <= (
    'f' as int)) || (('A' as int) <= (c as int) <= ('F' as int))
}

pub open spec fn hex_digit_val(c: char) -> int {
    if ('0' as int) <= (c as int) <= ('9' as int) {
        (c as int) - ('0' as int)
    } else if ('a' as int) <= (c as int) <= ('f' as int) {
        (c as int) - ('a' as int) + 10
    } else {
        (c as int) - ('A' as int) + 10
    }
}

/// The value of the hex digits `ds[0 .. n]`, most significant first.
pub open spec fn hex_val(ds: Seq<char>, n: int) -> int
    decreases n,
{
    if n <= 0 || n > ds.len() {
        0
    } else {
        hex_val(ds, n - 1) * 16 + hex_digit_val(ds[n - 1])
    }
}

pub open spec fn all_hex(ds: Seq<char>) -> bool {
    forall|k: int| 0 <= k < ds.len() ==> is_hex_digit(#[trigger] ds[k])
}

pub open spec fn pow16(n: int) -> int
    decreases n,
{
    if n <= 0 {
        1
    } else {
        16 * pow16(n - 1)
    }
}

pub proof fn lemma_hex_val_bound(ds: Seq<char>, n: int)
    requires
        all_hex(ds),
        0 <= n <= ds.len(),
    ensures
        0 <= hex_val(ds, n) < pow16(n),
    decreases n,
{
    if n > 0 {
        lemma_hex_val_bound(ds, n - 1);
    }
}

pub proof fn lemma_pow16_mono(a: int, b: int)
    requires
        0 <= a <= b,
    ensures
        pow16(a) <= pow16(b),
    decreases b - a,
{
    if a < b {
        lemma_pow16_mono(a, b - 1);
        lemma_pow16_pos(b - 1);
    }
}

pub proof fn lemma_pow16_pos(n: int)
    ensures
        pow16(n) >= 1,
    decreases n,
{
    if n > 0 {
        lemma_pow16_pos(n - 1);
    }
}

/// Parses the hex digits of `s[from .. to]`, most significant first.
/// At most sixteen digits fit a 64-bit value.
pub fn parse_hex_range(s: &str, from: usize, to: usize) -> (r: u64)
    requires
        from <= to <= s@.len(),
        all_hex(s@.subrange(from as int, to as int)),
        to - from <= 16,
    ensures
        r as int == hex_val(s@.subrange(from as int, to as int), (to - from) as int),
{
    let ghost ds = s@.subrange(from as int, to as int);
    let mut acc: u64 = 0;
    let mut i: usize = from;
    while i < to
        invariant
            from <= i <= to <= s@.len(),
            to - from <= 16,
            ds == s@.subrange(from as int, to as int),
            all_hex(ds),
            acc as int == hex_val(ds, (i - from) as int),
        decreases to - i,
    {
        let c = s.get_char(i);
        proof {
            assert(ds[i - from] == s@[i as int]);
            assert(is_hex_digit(c));
            lemma_hex_val_bound(ds, (i - from) as int);
            lemma_pow16_mono((i - from) as int, 15);
            reveal_with_fuel(pow16, 17);
            assert(pow16(15) == 0x1000000000000000);
            assert(acc < 0x1000000000000000);
        }
        let d: u64 = if c >= '0' && c <= '9' {
            (c as u32 - '0' as u32) as u64
        } else if c >= 'a' && c <= 'f' {
            (c as u32 - 'a' as u32) as u64 + 10
        } else {
            (c as u32 - 'A' as u32) as u64 + 10
        };
        proof {
            assert(d as int == hex_digit_val(c));
        }
        acc = acc * 16 + d;
        i += 1;
    }
    acc
}


pub open spec fn is_hex_prefixed_spec(c: Seq<char>) -> bool {
    c.len() >= 2 && c[0] == '0' && c[1] == 'x'
}

/// Whether a component is written as a literal hex hash.
pub fn is_hex_prefixed(c: &str) -> (r: bool)
    ensures
        r == is_hex_prefixed_spec(c@),
{
    let n = c.unicode_len();
    if n < 2 {
        return false;
    }
    let c0 = c.get_char(0);
    let c1 = c.get_char(1);
    c0 == '0' && c1 == 'x'
}

/// Position of the first `.` in `c` at or after `i`, or the length.
pub open spec fn first_dot(c: Seq<char>, i: int) -> int
    decreases c.len() - i,
{
    if i < 0 || i >= c.len() {
        c.len() as int
    } else if c[i] == '.' {
        i
    } else {
        first_dot(c, i + 1)
    }
}

pub proof fn lemma_first_dot_ge(c: Seq<char>, i: int)
    requires
        0 <= i,
    ensures
        first_dot(c, i) >= i || first_dot(c, i) == c.len(),
        first_dot(c, i) <= c.len(),
        is_hex_prefixed_spec(c) && i == 0 ==> first_dot(c, 0) >= 2,
    decreases c.len() - i,
{
    if i < c.len() && c[i] != '.' {
        lemma_first_dot_ge(c, i + 1);
    }
    if is_hex_prefixed_spec(c) && i == 0 {
        assert(c[0] != '.');
        assert(c[1] != '.');
        assert(first_dot(c, 0) == first_dot(c, 1));
        assert(first_dot(c, 1) == first_dot(c, 2));
        lemma_first_dot_ge(c, 2);
    }
}

/// Finds the first `.` in `c`, or its length when there is none.
pub fn find_dot(c: &str) -> (r: usize)
    ensures
        r as int == first_dot(c@, 0),
        r <= c@.len(),
{
    let n = c.unicode_len();
    let mut i: usize = 0;
    while i < n
        invariant
            i <= n,
            n == c@.len(),
            first_dot(c@, 0) == first_dot(c@, i as int),
        decreases n - i,
    {
        let ch = c.get_char(i);
        if ch == '.' {
            return i;
        }
        i += 1;
    }
    proof {
        lemma_first_dot_ge(c@, i as int);
    }
    n
}

/// Nonempty hex digits that fit a 64-bit value.
pub open spec fn comp_hex_ok(ds: Seq<char>) -> bool {
    all_hex(ds) && 1 <= ds.len() <= 16
}


/// Whether `s[from .. to]` is nonempty well-formed hex that fits a
/// 64-bit value.
pub fn check_hex_range(s: &str, from: usize, to: usize) -> (r: bool)
    requires
        from <= to <= s@.len(),
    ensures
        r == comp_hex_ok(s@.subrange(from as int, to as int)),
{
    let ghost ds = s@.subrange(from as int, to as int);
    if to - from < 1 || to - from > 16 {
        return false;
    }
    let mut i: usize = from;
    while i < to
        invariant
            from <= i <= to <= s@.len(),
            ds == s@.subrange(from as int, to as int),
            forall|k: int| 0 <= k < i - from ==> is_hex_digit(#[trigger] ds[k]),
        decreases to - i,
    {
        let c = s.get_char(i);
        proof {
            assert(ds[i - from] == s@[i as int]);
        }
        let ok = (c >= '0' && c <= '9') || (c >= 'a' && c <= 'f') || (c >= 'A' && c <= 'F');
        if !ok {
            proof {
                assert(!is_hex_digit(ds[i - from]));
            }
            return false;
        }
        i += 1;
    }
    true
}

} // verus!
