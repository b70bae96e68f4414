//! The order of strings by which the configuration keeps its keys: code point
//! by code point, a proper prefix before what it is a prefix of.
use vstd::prelude::*;
use vstd::string::*;

verus! {

/// `a` and `b` agree before place `i`, and part there.
pub open spec fn part_at(a: Seq<char>, b: Seq<char>, i: int) -> bool {
    &&& 0 <= i <= a.len()
    &&& i <= b.len()
    &&& forall|j: int| 0 <= j < i ==> a[j] == b[j]
    &&& (i == a.len() || i == b.len() || a[i] != b[i])
}

/// `a` comes before `b`.
pub open spec fn precedes(a: Seq<char>, b: Seq<char>) -> bool {
    exists|i: int| #[trigger]
        part_at(a, b, i) && i < b.len() && (i == a.len() || (a[i] as int) < (b[i] as int))
}

/// The keys stand in rising order.
pub open spec fn rising(keys: Seq<Seq<char>>) -> bool {
    forall|i: int, j: int| 0 <= i < j < keys.len() ==> precedes(#[trigger] keys[i], #[trigger] keys[j])
}

/// Two strings part at one place only.
pub proof fn lemma_part_unique(a: Seq<char>, b: Seq<char>, i: int, j: int)
    requires
        part_at(a, b, i),
        part_at(a, b, j),
    ensures
        i == j,
{
    if i < j {
        assert(a[i] == b[i]);
    }
    if j < i {
        assert(a[j] == b[j]);
    }
}

/// No string comes before itself.
pub proof fn lemma_irreflexive(a: Seq<char>)
    ensures
        !precedes(a, a),
{
}

/// A place at or after `i` at which `a` and `b` part.
pub open spec fn parting(a: Seq<char>, b: Seq<char>, i: int) -> int
    decreases a.len() - i,
{
    if i < 0 || i >= a.len() || i >= b.len() || a[i] != b[i] {
        i
    } else {
        parting(a, b, i + 1)
    }
}

/// Strings that agree before `i` part at `parting(a, b, i)`.
pub proof fn lemma_parting(a: Seq<char>, b: Seq<char>, i: int)
    requires
        0 <= i <= a.len(),
        i <= b.len(),
        forall|j: int| 0 <= j < i ==> a[j] == b[j],
    ensures
        part_at(a, b, parting(a, b, i)),
    decreases a.len() - i,
{
    if !(i >= a.len() || i >= b.len() || a[i] != b[i]) {
        lemma_parting(a, b, i + 1);
    }
}

/// Of two different strings one comes before the other.
pub proof fn lemma_total(a: Seq<char>, b: Seq<char>)
    requires
        a != b,
    ensures
        precedes(a, b) || precedes(b, a),
{
    lemma_parting(a, b, 0);
    let d = parting(a, b, 0);
    assert(part_at(b, a, d));
    if d == a.len() && d == b.len() {
        assert(a =~= b);
    } else if d == a.len() {
        assert(precedes(a, b));
    } else if d == b.len() {
        assert(precedes(b, a));
    } else {
        assert(a[d] != b[d]);
        assert((a[d] as int) != (b[d] as int));
        if (a[d] as int) < (b[d] as int) {
            assert(precedes(a, b));
        } else {
            assert(precedes(b, a));
        }
    }
}

/// The order is transitive.
pub proof fn lemma_transitive(a: Seq<char>, b: Seq<char>, c: Seq<char>)
    requires
        precedes(a, b),
        precedes(b, c),
    ensures
        precedes(a, c),
{
    let i = choose|i: int| #[trigger]
        part_at(a, b, i) && i < b.len() && (i == a.len() || (a[i] as int) < (b[i] as int));
    let k = choose|k: int| #[trigger]
        part_at(b, c, k) && k < c.len() && (k == b.len() || (b[k] as int) < (c[k] as int));
    let m = if i < k {
        i
    } else {
        k
    };
    assert forall|j: int| 0 <= j < m implies a[j] == c[j] by {
        assert(a[j] == b[j]);
        assert(b[j] == c[j]);
    }
    if i < k {
        assert(b[i] == c[i]);
    }
    if k < i {
        assert(a[k] == b[k]);
    }
    assert(part_at(a, c, m));
}

/// Keys in rising order are distinct.
pub proof fn lemma_rising_distinct(keys: Seq<Seq<char>>)
    requires
        rising(keys),
    ensures
        keys.no_duplicates(),
{
    assert forall|i: int, j: int| 0 <= i < keys.len() && 0 <= j < keys.len() && i != j implies keys[i] != keys[j] by {
        if i < j {
            assert(precedes(keys[i], keys[j]));
        } else {
            assert(precedes(keys[j], keys[i]));
        }
    }
}

/// Whether `a` comes before `b`.
pub fn comes_before(a: &str, b: &str) -> (r: bool)
    ensures
        r == precedes(a@, b@),
{
    let n = a.unicode_len();
    let m = b.unicode_len();
    let mut i: usize = 0;
    while i < n && i < m
        invariant
            i <= n,
            i <= m,
            n == a@.len(),
            m == b@.len(),
            forall|j: int| 0 <= j < i ==> a@[j] == b@[j],
        decreases n - i,
    {
        let x = a.get_char(i);
        let y = b.get_char(i);
        if x != y {
            let r = (x as u32) < (y as u32);
            proof {
                assert(part_at(a@, b@, i as int));
                if precedes(a@, b@) {
                    let d = choose|d: int| #[trigger]
                        part_at(a@, b@, d) && d < b@.len() && (d == a@.len() || (a@[d] as int) < (
                        b@[d] as int));
                    lemma_part_unique(a@, b@, d, i as int);
                }
            }
            return r;
        }
        i += 1;
    }
    proof {
        assert(part_at(a@, b@, i as int));
        if precedes(a@, b@) {
            let d = choose|d: int| #[trigger]
                part_at(a@, b@, d) && d < b@.len() && (d == a@.len() || (a@[d] as int) < (
                b@[d] as int));
            lemma_part_unique(a@, b@, d, i as int);
        }
    }
    i < m
}

} // verus!
