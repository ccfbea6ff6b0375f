//! Comparing and splitting text.

use vstd::prelude::*;
use vstd::string::*;
use vstd::utf8::*;

verus! {

/// Whether two texts are the same.
pub fn same_text(a: &str, b: &str) -> (r: bool)
    ensures
        r == (a@ == b@),
{
    let n: usize = a.unicode_len();
    if n != b.unicode_len() {
        return false;
    }
    let mut i: usize = 0;
    while i < n
        invariant
            i <= n,
            n == a@.len(),
            n == b@.len(),
            forall|j: int| 0 <= j < i ==> a@[j] == b@[j],
        decreases n - i,
    {
        if a.get_char(i) != b.get_char(i) {
            return false;
        }
        i = i + 1;
    }
    assert(a@ =~= b@);
    true
}

/// Reads bytes as text, by way of `std::str::from_utf8`.
///
/// Trusted: the call succeeds exactly on valid UTF-8, and the text that it
/// gives has the same bytes.
#[verifier::external_body]
pub(crate) fn text_of(bytes: &[u8]) -> (r: Option<&str>)
    ensures
        match r {
            Some(s) => valid_utf8(bytes@) && s.spec_bytes() == bytes@,
            None => !valid_utf8(bytes@),
        },
{
    std::str::from_utf8(bytes).ok()
}

/// Whether `i` is the place of the first colon from `start` on.
pub open spec fn first_colon(s: Seq<char>, start: int, i: int) -> bool {
    &&& start <= i < s.len()
    &&& s[i] == ':'
    &&& forall|j: int| start <= j < i ==> s[j] != ':'
}

/// Whether `parts` are the three fields of `s`: what lies before its first
/// colon, between its first two, and behind its second.
pub open spec fn triplet_of(s: Seq<char>, parts: (Seq<char>, Seq<char>, Seq<char>)) -> bool {
    exists|i: int, j: int|
        {
            &&& #[trigger] first_colon(s, 0, i)
            &&& #[trigger] first_colon(s, i + 1, j)
            &&& parts.0 == s.subrange(0, i)
            &&& parts.1 == s.subrange(i + 1, j)
            &&& parts.2 == s.subrange(j + 1, s.len() as int)
        }
}

/// The place of the first colon from `start` on.
fn find_colon(s: &str, start: usize) -> (r: Option<usize>)
    requires
        start <= s@.len(),
    ensures
        match r {
            Some(i) => first_colon(s@, start as int, i as int),
            None => forall|j: int| start <= j < s@.len() ==> s@[j] != ':',
        },
{
    let n: usize = s.unicode_len();
    let mut i: usize = start;
    while i < n
        invariant
            start <= i <= n,
            n == s@.len(),
            forall|j: int| start <= j < i ==> s@[j] != ':',
        decreases n - i,
    {
        if s.get_char(i) == ':' {
            return Some(i);
        }
        i = i + 1;
    }
    None
}

/// Splits a text at its first two colons; `None` where it has less than two.
pub fn split_triplet(s: &str) -> (r: Option<(&str, &str, &str)>)
    ensures
        match r {
            Some(parts) => triplet_of(s@, (parts.0@, parts.1@, parts.2@)),
            None => forall|parts: (Seq<char>, Seq<char>, Seq<char>)| !#[trigger] triplet_of(
                s@,
                parts,
            ),
        },
{
    let n: usize = s.unicode_len();
    match find_colon(s, 0) {
        None => None,
        Some(i) => {
            match find_colon(s, i + 1) {
                None => {
                    proof {
                        assert forall|a: int| #[trigger] first_colon(s@, 0, a) implies a == i by {
                            lemma_first_colon_unique(s@, 0, a, i as int);
                        }
                    }
                    None
                },
                Some(j) => {
                    let parts = (
                        s.substring_char(0, i),
                        s.substring_char(i + 1, j),
                        s.substring_char(j + 1, n),
                    );
                    assert(first_colon(s@, 0, i as int) && first_colon(s@, i + 1, j as int));
                    Some(parts)
                },
            }
        },
    }
}

proof fn lemma_first_colon_unique(s: Seq<char>, start: int, i: int, j: int)
    requires
        first_colon(s, start, i),
        first_colon(s, start, j),
    ensures
        i == j,
{
    if i < j {
        assert(s[i] != ':');
    }
    if j < i {
        assert(s[j] != ':');
    }
}

/// A text has at most one triplet, and the triplet joined by colons is the
/// text; only its last field can hold a colon.
pub proof fn law_triplet_splits(
    s: Seq<char>,
    a: (Seq<char>, Seq<char>, Seq<char>),
    b: (Seq<char>, Seq<char>, Seq<char>),
)
    requires
        triplet_of(s, a),
    ensures
        triplet_of(s, b) ==> a == b,
        s == a.0 + seq![':'] + a.1 + seq![':'] + a.2,
        !a.0.contains(':'),
        !a.1.contains(':'),
{
    let (i, j) = choose|i: int, j: int|
        {
            &&& #[trigger] first_colon(s, 0, i)
            &&& #[trigger] first_colon(s, i + 1, j)
            &&& a.0 == s.subrange(0, i)
            &&& a.1 == s.subrange(i + 1, j)
            &&& a.2 == s.subrange(j + 1, s.len() as int)
        };
    assert(s =~= a.0 + seq![':'] + a.1 + seq![':'] + a.2);
    if triplet_of(s, b) {
        let (k, l) = choose|k: int, l: int|
            {
                &&& #[trigger] first_colon(s, 0, k)
                &&& #[trigger] first_colon(s, k + 1, l)
                &&& b.0 == s.subrange(0, k)
                &&& b.1 == s.subrange(k + 1, l)
                &&& b.2 == s.subrange(l + 1, s.len() as int)
            };
        lemma_first_colon_unique(s, 0, i, k);
        lemma_first_colon_unique(s, i + 1, j, l);
    }
}

/// Three fields joined by colons split into these fields, as long as the first
/// two hold no colon.
pub proof fn law_triplet_joins(r: Seq<char>, g: Seq<char>, b: Seq<char>)
    requires
        !r.contains(':'),
        !g.contains(':'),
    ensures
        triplet_of(r + seq![':'] + g + seq![':'] + b, (r, g, b)),
{
    let s = r + seq![':'] + g + seq![':'] + b;
    let i: int = r.len() as int;
    let j: int = i + 1 + g.len();
    assert forall|k: int| 0 <= k < i implies s[k] != ':' by {
        assert(s[k] == r[k]);
        assert(r.contains(r[k]));
    }
    assert forall|k: int| i + 1 <= k < j implies s[k] != ':' by {
        assert(s[k] == g[k - i - 1]);
        assert(g.contains(g[k - i - 1]));
    }
    assert(first_colon(s, 0, i));
    assert(first_colon(s, i + 1, j));
    assert(r =~= s.subrange(0, i));
    assert(g =~= s.subrange(i + 1, j));
    assert(b =~= s.subrange(j + 1, s.len() as int));
}

/// Whether a text holds exactly two colons.
pub open spec fn two_colons(s: Seq<char>) -> bool {
    exists|i: int, j: int|
        {
            &&& #[trigger] first_colon(s, 0, i)
            &&& #[trigger] first_colon(s, i + 1, j)
            &&& forall|k: int| j < k < s.len() ==> s[k] != ':'
        }
}

/// A text has three fields without a colon if and only if it holds exactly two
/// colons.
pub proof fn law_triplet_has_two_colons(s: Seq<char>, parts: (Seq<char>, Seq<char>, Seq<char>))
    requires
        triplet_of(s, parts),
    ensures
        two_colons(s) <==> !parts.2.contains(':'),
{
    let (i, j) = choose|i: int, j: int|
        {
            &&& #[trigger] first_colon(s, 0, i)
            &&& #[trigger] first_colon(s, i + 1, j)
            &&& parts.0 == s.subrange(0, i)
            &&& parts.1 == s.subrange(i + 1, j)
            &&& parts.2 == s.subrange(j + 1, s.len() as int)
        };
    if two_colons(s) {
        let (k, l) = choose|k: int, l: int|
            {
                &&& #[trigger] first_colon(s, 0, k)
                &&& #[trigger] first_colon(s, k + 1, l)
                &&& forall|m: int| l < m < s.len() ==> s[m] != ':'
            };
        lemma_first_colon_unique(s, 0, i, k);
        lemma_first_colon_unique(s, i + 1, j, l);
        assert forall|m: int| 0 <= m < parts.2.len() implies parts.2[m] != ':' by {
            assert(parts.2[m] == s[j + 1 + m]);
        }
    } else if !parts.2.contains(':') {
        assert forall|m: int| j < m < s.len() implies s[m] != ':' by {
            assert(parts.2[m - j - 1] == s[m]);
            assert(parts.2.contains(parts.2[m - j - 1]));
        }
        assert(first_colon(s, 0, i) && first_colon(s, i + 1, j));
    }
}

} // verus!
