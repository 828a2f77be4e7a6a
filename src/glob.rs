//! Exclusion patterns with `*` wildcards, matched byte by byte.

use vstd::prelude::*;
use vstd::utf8::encode_utf8;

verus! {

pub const STAR: u8 = 42;

/// Index of the first `*` in `p`, if any.
pub open spec fn star_index(p: Seq<u8>) -> Option<int>
    decreases p.len(),
{
    if p.len() == 0 {
        None
    } else if p[0] == STAR {
        Some(0)
    } else {
        match star_index(p.drop_first()) {
            Some(i) => Some(i + 1),
            None => None,
        }
    }
}

/// Whether `s` matches the pattern `p`: without a wildcard, `s == p`; with
/// one at index `k`, the first `k` bytes agree and some tail of `s` starting
/// at or after `k` matches the rest of the pattern after the `*`.
pub open spec fn glob_match(s: Seq<u8>, p: Seq<u8>) -> bool
    decreases p.len(), 0int,
{
    match star_index(p) {
        None => s == p,
        Some(k) => {
            &&& 0 <= k < p.len()
            &&& k <= s.len()
            &&& s.subrange(0, k) == p.subrange(0, k)
            &&& any_split(s, p.subrange(k + 1, p.len() as int), k)
        },
    }
}

/// Some tail `s[i..]`, `s[i + 1..]`, ..., `s[len..]` matches `tail`.
pub open spec fn any_split(s: Seq<u8>, tail: Seq<u8>, i: int) -> bool
    decreases tail.len(), s.len() + 1 - i,
{
    if 0 <= i <= s.len() {
        glob_match(s.subrange(i, s.len() as int), tail) || any_split(s, tail, i + 1)
    } else {
        false
    }
}

/// A name is allowed when no pattern matches it.
pub open spec fn allowed_by(s: Seq<u8>, patterns: Seq<Seq<u8>>) -> bool {
    forall|j: int| 0 <= j < patterns.len() ==> !glob_match(s, #[trigger] patterns[j])
}

proof fn lemma_star_index(p: Seq<u8>)
    ensures
        match star_index(p) {
            Some(k) => 0 <= k < p.len() && p[k] == STAR && forall|j: int|
                0 <= j < k ==> p[j] != STAR,
            None => forall|j: int| 0 <= j < p.len() ==> p[j] != STAR,
        },
    decreases p.len(),
{
    if p.len() > 0 && p[0] != STAR {
        lemma_star_index(p.drop_first());
        match star_index(p.drop_first()) {
            Some(k) => {
                assert forall|j: int| 0 <= j < k + 1 implies p[j] != STAR by {
                    if j > 0 {
                        assert(p[j] == p.drop_first()[j - 1]);
                    }
                }
            },
            None => {
                assert forall|j: int| 0 <= j < p.len() implies p[j] != STAR by {
                    if j > 0 {
                        assert(p[j] == p.drop_first()[j - 1]);
                    }
                }
            },
        }
    }
}

fn find_star(p: &[u8], from: usize) -> (r: Option<usize>)
    requires
        from <= p@.len(),
    ensures
        star_index(p@.subrange(from as int, p@.len() as int)) == match r {
            Some(k) => Some(k - from),
            None => None::<int>,
        },
        r matches Some(k) ==> from <= k < p@.len(),
{
    let mut i: usize = from;
    while i < p.len()
        invariant
            from <= i <= p@.len(),
            forall|j: int| from <= j < i ==> p@[j] != STAR,
        decreases p@.len() - i,
    {
        if p[i] == STAR {
            proof {
                let t = p@.subrange(from as int, p@.len() as int);
                lemma_star_index(t);
                lemma_star_unique(t, (i - from) as int);
            }
            return Some(i);
        }
        i = i + 1;
    }
    proof {
        let t = p@.subrange(from as int, p@.len() as int);
        lemma_star_index(t);
        if star_index(t) is Some {
            let k = star_index(t)->0;
            assert(t[k] == p@[from + k]);
        }
    }
    None
}

proof fn lemma_star_unique(t: Seq<u8>, k: int)
    requires
        0 <= k < t.len(),
        t[k] == STAR,
        forall|j: int| 0 <= j < k ==> t[j] != STAR,
    ensures
        star_index(t) == Some(k),
    decreases t.len(),
{
    if k > 0 {
        assert forall|j: int| 0 <= j < k - 1 implies t.drop_first()[j] != STAR by {
            assert(t.drop_first()[j] == t[j + 1]);
        }
        lemma_star_unique(t.drop_first(), k - 1);
    }
}

/// Matches `s[si..]` against `p[pi..]`.
#[verifier::loop_isolation(false)]
#[verifier::rlimit(40)]
fn glob_from(s: &[u8], si: usize, p: &[u8], pi: usize) -> (r: bool)
    requires
        si <= s@.len(),
        pi <= p@.len(),
    ensures
        r == glob_match(s@.subrange(si as int, s@.len() as int), p@.subrange(pi as int, p@.len() as int)),
    decreases p@.len() - pi, 1int,
{
    let ghost ss = s@.subrange(si as int, s@.len() as int);
    let ghost ps = p@.subrange(pi as int, p@.len() as int);
    match find_star(p, pi) {
        None => {
            if s.len() - si != p.len() - pi {
                return false;
            }
            let mut j: usize = 0;
            while j < s.len() - si
                invariant
                    si <= s@.len(),
                    pi <= p@.len(),
                    s@.len() - si == p@.len() - pi,
                    0 <= j <= s@.len() - si,
                    ss == s@.subrange(si as int, s@.len() as int),
                    ps == p@.subrange(pi as int, p@.len() as int),
                    forall|t: int| 0 <= t < j ==> ss[t] == ps[t],
                decreases s@.len() - si - j,
            {
                if s[si + j] != p[pi + j] {
                    assert(ss[j as int] != ps[j as int]);
                    return false;
                }
                j = j + 1;
            }
            assert(ss =~= ps);
            true
        },
        Some(star) => {
            let k: usize = star - pi;
            if s.len() - si < k {
                return false;
            }
            let mut j: usize = 0;
            while j < k
                invariant
                    si + k <= s@.len(),
                    pi + k < p@.len(),
                    star == pi + k,
                    0 <= j <= k,
                    ss == s@.subrange(si as int, s@.len() as int),
                    ps == p@.subrange(pi as int, p@.len() as int),
                    forall|t: int| 0 <= t < j ==> ss[t] == ps[t],
                decreases k - j,
            {
                if s[si + j] != p[pi + j] {
                    assert(ss.subrange(0, k as int)[j as int] != ps.subrange(0, k as int)[j as int]);
                    return false;
                }
                j = j + 1;
            }
            assert(ss.subrange(0, k as int) =~= ps.subrange(0, k as int));
            let ghost tail = ps.subrange(k + 1, ps.len() as int);
            assert(tail =~= p@.subrange(star + 1, p@.len() as int));
            let plen = p.len();
            let mut i: usize = si + k;
            loop
                invariant
                    si + k <= i <= s@.len(),
                    ss == s@.subrange(si as int, s@.len() as int),
                    tail == p@.subrange(star + 1, p@.len() as int),
                    star < plen,
                    any_split(ss, tail, k as int) == any_split(ss, tail, (i - si) as int),
                decreases s@.len() - i,
            {
                assert(ss.subrange(i - si, ss.len() as int) =~= s@.subrange(i as int, s@.len() as int));
                if glob_from(s, i, p, star + 1) {
                    return true;
                }
                if i == s.len() {
                    assert(!any_split(ss, tail, (i - si + 1) as int));
                    return false;
                }
                i = i + 1;
            }
        },
    }
}

/// Whether `s` matches `pattern`, which may hold `*` wildcards.
pub fn matches_glob(s: &String, pattern: &String) -> (r: bool)
    ensures
        r == glob_match(encode_utf8(s@), encode_utf8(pattern@)),
{
    let sb = s.as_str().as_bytes();
    let pb = pattern.as_str().as_bytes();
    proof {
        assert(sb@.subrange(0, sb@.len() as int) =~= sb@);
        assert(pb@.subrange(0, pb@.len() as int) =~= pb@);
    }
    glob_from(sb, 0, pb, 0)
}

/// Whether no pattern of `exclude_patterns` matches `name`.
pub fn file_allowed(name: &String, exclude_patterns: &Vec<String>) -> (r: bool)
    ensures
        r == allowed_by(
            encode_utf8(name@),
            exclude_patterns@.map_values(|p: String| encode_utf8(p@)),
        ),
{
    let ghost pats = exclude_patterns@.map_values(|p: String| encode_utf8(p@));
    let mut j: usize = 0;
    while j < exclude_patterns.len()
        invariant
            0 <= j <= exclude_patterns@.len(),
            pats == exclude_patterns@.map_values(|p: String| encode_utf8(p@)),
            forall|t: int| 0 <= t < j ==> !glob_match(encode_utf8(name@), #[trigger] pats[t]),
        decreases exclude_patterns@.len() - j,
    {
        if matches_glob(name, &exclude_patterns[j]) {
            assert(glob_match(encode_utf8(name@), pats[j as int]));
            return false;
        }
        j = j + 1;
    }
    true
}

} // verus!
