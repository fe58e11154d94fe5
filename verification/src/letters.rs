//! Letter-level model shared by the whole index: ASCII lowercasing, the
//! wildcard marker, and conversions between `&str` queries and the `Vec<char>`
//! form the index stores.

use vstd::prelude::*;
use vstd::multiset::Multiset;
use vstd::relations::{sorted_by, total_ordering};
use vstd::seq_lib::lemma_multiset_commutative;

verus! {

broadcast use
    vstd::seq_lib::group_to_multiset_ensures,
    vstd::multiset::group_multiset_axioms,
;

/// ASCII lowercasing of one character: `'A'..='Z'` map to `'a'..='z'`, every
/// other character is left as it is.
pub open spec fn lower_char(c: char) -> char {
    if c == 'A' {
        'a'
    } else if c == 'B' {
        'b'
    } else if c == 'C' {
        'c'
    } else if c == 'D' {
        'd'
    } else if c == 'E' {
        'e'
    } else if c == 'F' {
        'f'
    } else if c == 'G' {
        'g'
    } else if c == 'H' {
        'h'
    } else if c == 'I' {
        'i'
    } else if c == 'J' {
        'j'
    } else if c == 'K' {
        'k'
    } else if c == 'L' {
        'l'
    } else if c == 'M' {
        'm'
    } else if c == 'N' {
        'n'
    } else if c == 'O' {
        'o'
    } else if c == 'P' {
        'p'
    } else if c == 'Q' {
        'q'
    } else if c == 'R' {
        'r'
    } else if c == 'S' {
        's'
    } else if c == 'T' {
        't'
    } else if c == 'U' {
        'u'
    } else if c == 'V' {
        'v'
    } else if c == 'W' {
        'w'
    } else if c == 'X' {
        'x'
    } else if c == 'Y' {
        'y'
    } else if c == 'Z' {
        'z'
    } else {
        c
    }
}

/// Pointwise ASCII lowercasing of a character sequence.
pub open spec fn lower_seq(s: Seq<char>) -> Seq<char> {
    s.map_values(|c: char| lower_char(c))
}

/// A sequence is lower-normalized when lowercasing leaves it unchanged.
pub open spec fn is_lower(s: Seq<char>) -> bool {
    lower_seq(s) == s
}

/// Lowercasing is idempotent: no lowercase result contains `'A'..='Z'`.
pub proof fn lemma_lower_idempotent(s: Seq<char>)
    ensures
        is_lower(lower_seq(s)),
{
    assert(lower_seq(lower_seq(s)) =~= lower_seq(s));
}

pub exec fn lower_char_exec(c: char) -> (r: char)
    ensures
        r == lower_char(c),
{
    match c {
        'A' => 'a',
        'B' => 'b',
        'C' => 'c',
        'D' => 'd',
        'E' => 'e',
        'F' => 'f',
        'G' => 'g',
        'H' => 'h',
        'I' => 'i',
        'J' => 'j',
        'K' => 'k',
        'L' => 'l',
        'M' => 'm',
        'N' => 'n',
        'O' => 'o',
        'P' => 'p',
        'Q' => 'q',
        'R' => 'r',
        'S' => 's',
        'T' => 't',
        'U' => 'u',
        'V' => 'v',
        'W' => 'w',
        'X' => 'x',
        'Y' => 'y',
        'Z' => 'z',
        _ => c,
    }
}

/// Reads a query or word-list line into the lower-normalized character vector
/// that the index works on.
pub exec fn normalized_chars(s: &str) -> (r: Vec<char>)
    ensures
        r@ == lower_seq(s@),
{
    let n: usize = s.unicode_len();
    let mut r: Vec<char> = Vec::new();
    let mut i: usize = 0;
    while i < n
        invariant
            n == s@.len(),
            i <= n,
            r@ == lower_seq(s@.subrange(0, i as int)),
        decreases n - i,
    {
        let c = lower_char_exec(s.get_char(i));
        r.push(c);
        proof {
            assert(s@.subrange(0, i + 1) =~= s@.subrange(0, i as int).push(s@[i as int]));
            assert(lower_seq(s@.subrange(0, i + 1)) =~= lower_seq(
                s@.subrange(0, i as int),
            ).push(lower_char(s@[i as int])));
        }
        i = i + 1;
    }
    proof {
        assert(s@.subrange(0, n as int) =~= s@);
    }
    r
}

/// The fixed deterministic order on letters used for canonical keys:
/// ascending code point.
pub open spec fn char_leq() -> spec_fn(char, char) -> bool {
    |a: char, b: char| (a as int) <= (b as int)
}

/// A canonical key is a letter sequence sorted by ascending code point.
pub open spec fn key_sorted(s: Seq<char>) -> bool {
    sorted_by(s, char_leq())
}

/// Code-point order is a total order on characters.
pub proof fn lemma_char_leq_total()
    ensures
        total_ordering(char_leq()),
{
}

/// Two sorted letter sequences are equal exactly when they hold the same
/// letters with the same multiplicities: a word's canonical key determines,
/// and is determined by, its letter multiset.
pub proof fn lemma_key_unique(a: Seq<char>, b: Seq<char>)
    requires
        key_sorted(a),
        key_sorted(b),
    ensures
        (a == b) <==> (a.to_multiset() == b.to_multiset()),
{
    lemma_char_leq_total();
    if a.to_multiset() == b.to_multiset() {
        vstd::seq_lib::lemma_sorted_unique(a, b, char_leq());
        assert(a =~= b);
    }
}

/// Inserting a letter anywhere in a sequence inserts it into the sequence's
/// letter multiset.
pub proof fn lemma_insert_to_multiset(s: Seq<char>, i: int, c: char)
    requires
        0 <= i <= s.len(),
    ensures
        s.insert(i, c).to_multiset() == s.to_multiset().insert(c),
{
    broadcast use vstd::seq_lib::group_to_multiset_ensures;
    broadcast use vstd::multiset::group_multiset_axioms;

    let pre = s.subrange(0, i);
    let suf = s.subrange(i, s.len() as int);
    assert(s =~= pre + suf);
    assert(s.insert(i, c) =~= pre.push(c) + suf);
    assert(pre.push(c) =~= pre + seq![c]);
    lemma_multiset_commutative(pre, suf);
    lemma_multiset_commutative(pre + seq![c], suf);
    lemma_multiset_commutative(pre, seq![c]);
    assert(seq![c] =~= Seq::<char>::empty().push(c));
    assert(seq![c].to_multiset() =~= Multiset::<char>::empty().insert(c));
    assert(s.insert(i, c).to_multiset() =~= s.to_multiset().insert(c));
}

/// Counts how often `c` occurs in `v`.
pub exec fn count_char(v: &Vec<char>, c: char) -> (n: usize)
    ensures
        n == v@.to_multiset().count(c),
{
    proof {
        broadcast use vstd::seq_lib::group_to_multiset_ensures;
        broadcast use vstd::multiset::group_multiset_axioms;

        assert(v@.subrange(0, 0) =~= Seq::<char>::empty());
        assert(Seq::<char>::empty().to_multiset().len() == 0);
        vstd::multiset::lemma_multiset_empty_len(Seq::<char>::empty().to_multiset());
        assert(Seq::<char>::empty().to_multiset().count(c) == 0);
    }
    let mut n: usize = 0;
    let mut i: usize = 0;
    while i < v.len()
        invariant
            i <= v@.len(),
            n <= i,
            n == v@.subrange(0, i as int).to_multiset().count(c),
        decreases v@.len() - i,
    {
        proof {
            broadcast use vstd::seq_lib::group_to_multiset_ensures;
            broadcast use vstd::multiset::group_multiset_axioms;

            assert(v@.subrange(0, i + 1) =~= v@.subrange(0, i as int).push(v@[i as int]));
        }
        if v[i] == c {
            n = n + 1;
        }
        i = i + 1;
    }
    proof {
        assert(v@.subrange(0, v@.len() as int) =~= v@);
    }
    n
}

/// Letter-for-letter equality of two character vectors.
pub exec fn chars_eq(a: &Vec<char>, b: &Vec<char>) -> (r: bool)
    ensures
        r <==> a@ == b@,
{
    if a.len() != b.len() {
        return false;
    }
    let mut i: usize = 0;
    while i < a.len()
        invariant
            a@.len() == b@.len(),
            i <= a@.len(),
            forall|k: int| 0 <= k < i ==> a@[k] == b@[k],
        decreases a@.len() - i,
    {
        if a[i] != b[i] {
            return false;
        }
        i = i + 1;
    }
    proof {
        assert(a@ =~= b@);
    }
    true
}

/// Inserting `c` between a prefix of letters at most `c` and a suffix of
/// letters at least `c` keeps the sequence sorted.
proof fn lemma_sorted_insert(s: Seq<char>, i: int, c: char)
    requires
        key_sorted(s),
        0 <= i <= s.len(),
        forall|k: int| 0 <= k < i ==> (s[k] as int) <= (c as int),
        forall|k: int| i <= k < s.len() ==> (c as int) <= (s[k] as int),
    ensures
        key_sorted(s.insert(i, c)),
{
    let t = s.insert(i, c);
    s.insert_ensures(i, c);
    assert forall|x: int, y: int| 0 <= x < y < t.len() implies #[trigger] char_leq()(
        t[x],
        t[y],
    ) by {
        let sx: int = if x < i {
            x
        } else {
            x - 1
        };
        let sy: int = if y < i {
            y
        } else {
            y - 1
        };
        if x < i {
            assert(t[x] == s[x]);
        } else if x == i {
            assert(t[x] == c);
        } else {
            assert(t[x] == s[x - 1]);
        }
        if y < i {
            assert(t[y] == s[y]);
        } else if y == i {
            assert(t[y] == c);
        } else {
            assert(t[y] == s[y - 1]);
        }
        if x != i && y != i {
            if sx < sy {
                assert(char_leq()(s[sx], s[sy]));
            } else {
                assert(sx == sy);
            }
        }
    }
}

/// Sorts the letters of `v` into ascending code-point order: the canonical
/// key of the word `v`.
pub exec fn sort_chars(v: &Vec<char>) -> (r: Vec<char>)
    ensures
        key_sorted(r@),
        r@.to_multiset() == v@.to_multiset(),
        r@.len() == v@.len(),
{
    broadcast use vstd::seq_lib::group_to_multiset_ensures;
    broadcast use vstd::multiset::group_multiset_axioms;

    let mut r: Vec<char> = Vec::new();
    let mut i: usize = 0;
    while i < v.len()
        invariant
            i <= v@.len(),
            r@.len() == i,
            key_sorted(r@),
            r@.to_multiset() == v@.subrange(0, i as int).to_multiset(),
        decreases v@.len() - i,
    {
        let c = v[i];
        let mut j: usize = 0;
        while j < r.len() && r[j] <= c
            invariant
                j <= r@.len(),
                forall|k: int| 0 <= k < j ==> (r@[k] as int) <= (c as int),
            decreases r@.len() - j,
        {
            j = j + 1;
        }
        proof {
            assert forall|k: int| j <= k < r@.len() implies (c as int) <= (r@[k] as int) by {
                if j < r@.len() {
                    if k > j {
                        assert(char_leq()(r@[j as int], r@[k]));
                    }
                }
            }
            lemma_sorted_insert(r@, j as int, c);
            lemma_insert_to_multiset(r@, j as int, c);
            assert(v@.subrange(0, i + 1) =~= v@.subrange(0, i as int).push(v@[i as int]));
        }
        r.insert(j, c);
        proof {
            assert(v@.subrange(0, i as int).push(v@[i as int]).to_multiset() == v@.subrange(
                0,
                i as int,
            ).to_multiset().insert(v@[i as int]));
            assert(r@.to_multiset() == v@.subrange(0, i + 1).to_multiset());
        }
        i = i + 1;
    }
    proof {
        assert(v@.subrange(0, v@.len() as int) =~= v@);
    }
    r
}

} // verus!
