use core::cmp::Ordering;
use vstd::prelude::*;
use vstd::string::StrSliceExecFns;

verus! {

/// A strict total order on keys, supplied by the key type itself.
///
/// The order lives on the key type's abstract view (`View::V`): `lt` is a
/// specification-level "strictly less than" on views, and `cmp_with` is
/// its executable three-way decision. The proof obligations make the
/// relation a strict total order that agrees with view equality, which is
/// what the search trees rely on. For the integer keys the view is the
/// integer itself; a `String` key is ordered by its character sequence.
pub trait TreeKey: View + Sized {
    /// The strict order on abstract key values.
    spec fn lt(a: Self::V, b: Self::V) -> bool;

    /// The order is transitive.
    proof fn lt_transitive(a: Self::V, b: Self::V, c: Self::V)
        requires
            Self::lt(a, b),
            Self::lt(b, c),
        ensures
            Self::lt(a, c),
    ;

    /// Any two key values are comparable, and never both ways around.
    proof fn lt_total(a: Self::V, b: Self::V)
        ensures
            Self::lt(a, b) || Self::lt(b, a) || a == b,
            !(Self::lt(a, b) && Self::lt(b, a)),
    ;

    /// Decide how `self` stands to `other` under the order.
    fn cmp_with(&self, other: &Self) -> (o: Ordering)
        ensures
            match o {
                Ordering::Less => Self::lt(self@, other@),
                Ordering::Equal => self@ == other@,
                Ordering::Greater => Self::lt(other@, self@),
            },
    ;
}

/// Two key values related by the strict order are distinct.
pub proof fn lemma_lt_ne<K: TreeKey>(a: K::V, b: K::V)
    ensures
        K::lt(a, b) ==> a != b,
{
    if K::lt(a, b) && a == b {
        K::lt_total(a, b);
    }
}

impl TreeKey for u64 {
    open spec fn lt(a: u64, b: u64) -> bool {
        a < b
    }

    proof fn lt_transitive(a: u64, b: u64, c: u64) {
    }

    proof fn lt_total(a: u64, b: u64) {
    }

    fn cmp_with(&self, other: &Self) -> (o: Ordering) {
        if *self < *other {
            Ordering::Less
        } else if *self == *other {
            Ordering::Equal
        } else {
            Ordering::Greater
        }
    }
}

impl TreeKey for i32 {
    open spec fn lt(a: i32, b: i32) -> bool {
        a < b
    }

    proof fn lt_transitive(a: i32, b: i32, c: i32) {
    }

    proof fn lt_total(a: i32, b: i32) {
    }

    fn cmp_with(&self, other: &Self) -> (o: Ordering) {
        if *self < *other {
            Ordering::Less
        } else if *self == *other {
            Ordering::Equal
        } else {
            Ordering::Greater
        }
    }
}

impl TreeKey for u8 {
    open spec fn lt(a: u8, b: u8) -> bool {
        a < b
    }

    proof fn lt_transitive(a: u8, b: u8, c: u8) {
    }

    proof fn lt_total(a: u8, b: u8) {
    }

    fn cmp_with(&self, other: &Self) -> (o: Ordering) {
        if *self < *other {
            Ordering::Less
        } else if *self == *other {
            Ordering::Equal
        } else {
            Ordering::Greater
        }
    }
}

/// The lexicographic strict order on character sequences: decided by the
/// first differing character, with a proper prefix below its extension.
pub open spec fn lex_lt(a: Seq<char>, b: Seq<char>) -> bool
    decreases a.len(),
{
    if b.len() == 0 {
        false
    } else if a.len() == 0 {
        true
    } else if a[0] != b[0] {
        a[0] < b[0]
    } else {
        lex_lt(a.drop_first(), b.drop_first())
    }
}

/// Sequences that agree up to a position where the first is smaller are
/// lexicographically ordered.
proof fn lemma_lex_from_diff(a: Seq<char>, b: Seq<char>, i: int)
    requires
        0 <= i < a.len(),
        i < b.len(),
        forall|j: int| 0 <= j < i ==> a[j] == b[j],
        a[i] < b[i],
    ensures
        lex_lt(a, b),
    decreases i,
{
    if i == 0 {
        assert(a[0] != b[0]);
    } else {
        assert(a[0] == b[0]);
        let a2 = a.drop_first();
        let b2 = b.drop_first();
        assert(a2[i - 1] == a[i] && b2[i - 1] == b[i]);
        assert forall|j: int| 0 <= j < i - 1 implies a2[j] == b2[j] by {
            assert(a2[j] == a[j + 1] && b2[j] == b[j + 1]);
        }
        lemma_lex_from_diff(a2, b2, i - 1);
    }
}

/// A proper prefix is lexicographically below its extension.
proof fn lemma_lex_prefix(a: Seq<char>, b: Seq<char>)
    requires
        a.len() < b.len(),
        forall|j: int| 0 <= j < a.len() ==> a[j] == b[j],
    ensures
        lex_lt(a, b),
    decreases a.len(),
{
    if a.len() > 0 {
        let a2 = a.drop_first();
        let b2 = b.drop_first();
        assert forall|j: int| 0 <= j < a2.len() implies a2[j] == b2[j] by {
            assert(a2[j] == a[j + 1] && b2[j] == b[j + 1]);
        }
        lemma_lex_prefix(a2, b2);
    }
}

/// The lexicographic order is transitive.
proof fn lemma_lex_transitive(a: Seq<char>, b: Seq<char>, c: Seq<char>)
    requires
        lex_lt(a, b),
        lex_lt(b, c),
    ensures
        lex_lt(a, c),
    decreases a.len(),
{
    assert(b.len() > 0 && c.len() > 0);
    if a.len() > 0 {
        if a[0] == b[0] && b[0] == c[0] {
            lemma_lex_transitive(a.drop_first(), b.drop_first(), c.drop_first());
        } else if a[0] != b[0] && b[0] == c[0] {
            assert(a[0] != c[0]);
        } else if a[0] == b[0] && b[0] != c[0] {
            assert(a[0] != c[0]);
        } else {
            assert(a[0] < b[0] && b[0] < c[0]);
            assert(a[0] != c[0]);
        }
    }
}

/// Any two character sequences are lexicographically comparable, and
/// never both ways around.
proof fn lemma_lex_total(a: Seq<char>, b: Seq<char>)
    ensures
        lex_lt(a, b) || lex_lt(b, a) || a == b,
        !(lex_lt(a, b) && lex_lt(b, a)),
    decreases a.len(),
{
    if a.len() == 0 && b.len() == 0 {
        assert(a =~= b);
    } else if a.len() > 0 && b.len() > 0 {
        if a[0] == b[0] {
            lemma_lex_total(a.drop_first(), b.drop_first());
            if a.drop_first() == b.drop_first() {
                assert forall|j: int| 0 <= j < a.len() implies a[j] == b[j] by {
                    if j > 0 {
                        assert(a[j] == a.drop_first()[j - 1] && b[j] == b.drop_first()[j - 1]);
                    }
                }
                assert(b.len() == a.len());
                assert(a =~= b);
            }
        }
    }
}

impl TreeKey for String {
    /// Strings are ordered by their character sequences.
    open spec fn lt(a: Seq<char>, b: Seq<char>) -> bool {
        lex_lt(a, b)
    }

    proof fn lt_transitive(a: Seq<char>, b: Seq<char>, c: Seq<char>) {
        lemma_lex_transitive(a, b, c);
    }

    proof fn lt_total(a: Seq<char>, b: Seq<char>) {
        lemma_lex_total(a, b);
    }

    fn cmp_with(&self, other: &Self) -> (o: Ordering) {
        cmp_chars(self.as_str(), other.as_str())
    }
}

/// Walk two strings character by character until they differ or one of
/// them, a prefix of the other, runs out.
fn cmp_chars(a: &str, b: &str) -> (o: Ordering)
    ensures
        match o {
            Ordering::Less => lex_lt(a@, b@),
            Ordering::Equal => a@ == b@,
            Ordering::Greater => lex_lt(b@, a@),
        },
{
    let alen = a.unicode_len();
    let blen = b.unicode_len();
    let n = if alen < blen {
        alen
    } else {
        blen
    };
    let mut i: usize = 0;
    while i < n
        invariant
            i <= n,
            n <= alen && n <= blen,
            alen <= blen ==> n == alen,
            blen <= alen ==> n == blen,
            a@.len() == alen && b@.len() == blen,
            forall|j: int| 0 <= j < i ==> a@[j] == b@[j],
        decreases n - i,
    {
        let ca = a.get_char(i);
        let cb = b.get_char(i);
        if ca == cb {
            i = i + 1;
        } else if ca < cb {
            proof {
                lemma_lex_from_diff(a@, b@, i as int);
            }
            return Ordering::Less;
        } else {
            proof {
                assert(cb < ca);
                lemma_lex_from_diff(b@, a@, i as int);
            }
            return Ordering::Greater;
        }
    }
    if alen < blen {
        proof {
            lemma_lex_prefix(a@, b@);
        }
        Ordering::Less
    } else if blen < alen {
        proof {
            lemma_lex_prefix(b@, a@);
        }
        Ordering::Greater
    } else {
        proof {
            assert(a@ =~= b@);
        }
        Ordering::Equal
    }
}

/// A type that can probe a tree keyed by `K`: it views into the same
/// abstract key values as `K` and can be compared against a stored key.
/// This is the lookup-by-equivalent-key contract: a tree with `String`
/// keys, for instance, can be probed with a bare `str`. The standard
/// borrowed-key bound would serve here, but the verifier cannot reason
/// through it, so the library carries its own.
pub trait KeyRef<K: TreeKey>: View<V = <K as View>::V> {
    /// Decide how this probe stands to the stored key `other` under the
    /// key type's order.
    fn cmp_key(&self, other: &K) -> (o: Ordering)
        ensures
            match o {
                Ordering::Less => K::lt(self@, other@),
                Ordering::Equal => self@ == other@,
                Ordering::Greater => K::lt(other@, self@),
            },
    ;
}

impl KeyRef<u64> for u64 {
    fn cmp_key(&self, other: &u64) -> (o: Ordering) {
        if *self < *other {
            Ordering::Less
        } else if *self == *other {
            Ordering::Equal
        } else {
            Ordering::Greater
        }
    }
}

impl KeyRef<i32> for i32 {
    fn cmp_key(&self, other: &i32) -> (o: Ordering) {
        if *self < *other {
            Ordering::Less
        } else if *self == *other {
            Ordering::Equal
        } else {
            Ordering::Greater
        }
    }
}

impl KeyRef<u8> for u8 {
    fn cmp_key(&self, other: &u8) -> (o: Ordering) {
        if *self < *other {
            Ordering::Less
        } else if *self == *other {
            Ordering::Equal
        } else {
            Ordering::Greater
        }
    }
}

impl KeyRef<String> for String {
    fn cmp_key(&self, other: &String) -> (o: Ordering) {
        cmp_chars(self.as_str(), other.as_str())
    }
}

impl KeyRef<String> for str {
    fn cmp_key(&self, other: &String) -> (o: Ordering) {
        cmp_chars(self, other.as_str())
    }
}

} // verus!
