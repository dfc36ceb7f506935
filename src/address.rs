//! Addresses and their order: byte-wise lexicographic over the UTF-8 text.
use std::cmp::Ordering;
use vstd::prelude::*;
use vstd::utf8::{encode_utf8, encode_utf8_decode_utf8};

verus! {

/// The UTF-8 bytes of an address.
pub open spec fn bytes_of(s: Seq<char>) -> Seq<u8> {
    encode_utf8(s)
}

/// Byte-wise lexicographic "strictly before".
pub open spec fn lex_lt(a: Seq<u8>, b: Seq<u8>) -> bool
    decreases a.len(),
{
    if b.len() == 0 {
        false
    } else if a.len() == 0 {
        true
    } else if a[0] != b[0] {
        a[0] < b[0]
    } else {
        lex_lt(a.drop_first(), b.drop_first())
    }
}

/// Address `a` comes strictly before address `b`.
pub open spec fn precedes(a: Seq<char>, b: Seq<char>) -> bool {
    lex_lt(bytes_of(a), bytes_of(b))
}

/// Strictly ascending, hence free of duplicates.
pub open spec fn strictly_sorted(s: Seq<Seq<char>>) -> bool {
    forall|i: int, j: int| 0 <= i < j < s.len() ==> precedes(#[trigger] s[i], #[trigger] s[j])
}

/// `d` is the canonical dataset of the records `s`: the distinct elements of
/// `s`, in ascending order.
pub open spec fn canonical_of(d: Seq<Seq<char>>, s: Seq<Seq<char>>) -> bool {
    &&& strictly_sorted(d)
    &&& d.to_set() == s.to_set()
}

/// The text of each string.
pub open spec fn views(v: Seq<String>) -> Seq<Seq<char>> {
    v.map_values(|s: String| s@)
}

pub proof fn lemma_lex_irreflexive(a: Seq<u8>)
    ensures
        !lex_lt(a, a),
    decreases a.len(),
{
    if a.len() > 0 {
        lemma_lex_irreflexive(a.drop_first());
    }
}

pub proof fn lemma_lex_transitive(a: Seq<u8>, b: Seq<u8>, c: Seq<u8>)
    requires
        lex_lt(a, b),
        lex_lt(b, c),
    ensures
        lex_lt(a, c),
    decreases a.len(),
{
    if a.len() > 0 && a[0] == b[0] && b[0] == c[0] {
        lemma_lex_transitive(a.drop_first(), b.drop_first(), c.drop_first());
    }
}

pub proof fn lemma_lex_total(a: Seq<u8>, b: Seq<u8>)
    requires
        a != b,
    ensures
        lex_lt(a, b) || lex_lt(b, a),
    decreases a.len(),
{
    if a.len() > 0 && b.len() > 0 && a[0] == b[0] {
        if a.drop_first() == b.drop_first() {
            assert(a =~= seq![a[0]] + a.drop_first());
            assert(b =~= seq![b[0]] + b.drop_first());
        }
        lemma_lex_total(a.drop_first(), b.drop_first());
    } else if a.len() == 0 && b.len() == 0 {
        assert(a =~= b);
    }
}

/// After a common prefix of length `i`, the order is decided by the rest.
proof fn lemma_lex_skip(a: Seq<u8>, b: Seq<u8>, i: int)
    requires
        0 <= i <= a.len(),
        i <= b.len(),
        a.subrange(0, i) == b.subrange(0, i),
    ensures
        lex_lt(a, b) == lex_lt(a.subrange(i, a.len() as int), b.subrange(i, b.len() as int)),
    decreases i,
{
    if i == 0 {
        assert(a.subrange(0, a.len() as int) =~= a);
        assert(b.subrange(0, b.len() as int) =~= b);
    } else {
        assert(a[0] == a.subrange(0, i)[0]);
        assert(b[0] == b.subrange(0, i)[0]);
        assert(a.drop_first().subrange(0, i - 1) =~= a.subrange(0, i).drop_first());
        assert(b.drop_first().subrange(0, i - 1) =~= b.subrange(0, i).drop_first());
        lemma_lex_skip(a.drop_first(), b.drop_first(), i - 1);
        assert(a.drop_first().subrange(i - 1, a.len() - 1) =~= a.subrange(i, a.len() as int));
        assert(b.drop_first().subrange(i - 1, b.len() - 1) =~= b.subrange(i, b.len() as int));
    }
}

/// Distinct addresses have distinct bytes.
pub proof fn lemma_bytes_injective(a: Seq<char>, b: Seq<char>)
    requires
        bytes_of(a) == bytes_of(b),
    ensures
        a == b,
{
    encode_utf8_decode_utf8(a);
    encode_utf8_decode_utf8(b);
}

pub proof fn lemma_precedes_irreflexive(a: Seq<char>)
    ensures
        !precedes(a, a),
{
    lemma_lex_irreflexive(bytes_of(a));
}

pub proof fn lemma_precedes_transitive(a: Seq<char>, b: Seq<char>, c: Seq<char>)
    requires
        precedes(a, b),
        precedes(b, c),
    ensures
        precedes(a, c),
{
    lemma_lex_transitive(bytes_of(a), bytes_of(b), bytes_of(c));
}

pub proof fn lemma_precedes_total(a: Seq<char>, b: Seq<char>)
    requires
        a != b,
    ensures
        precedes(a, b) || precedes(b, a),
{
    if bytes_of(a) == bytes_of(b) {
        lemma_bytes_injective(a, b);
    }
    lemma_lex_total(bytes_of(a), bytes_of(b));
}

/// A strictly ascending sequence is determined by the set of its elements.
pub proof fn lemma_sorted_unique(a: Seq<Seq<char>>, b: Seq<Seq<char>>)
    requires
        strictly_sorted(a),
        strictly_sorted(b),
        a.to_set() == b.to_set(),
    ensures
        a == b,
    decreases a.len(),
{
    if a.len() == 0 {
        if b.len() > 0 {
            assert(b.contains(b[0]));
            assert(b.to_set().contains(b[0]));
        }
        assert(a =~= b);
    } else {
        assert(a.contains(a[0]));
        assert(a.to_set().contains(a[0]));
        assert(b.contains(a[0]));
        let j = choose|j: int| 0 <= j < b.len() && b[j] == a[0];
        assert(b.contains(b[0]));
        assert(b.to_set().contains(b[0]));
        assert(a.contains(b[0]));
        let i = choose|i: int| 0 <= i < a.len() && a[i] == b[0];
        if j > 0 {
            assert(precedes(b[0], b[j]));
            if i > 0 {
                assert(precedes(a[0], a[i]));
                lemma_precedes_transitive(a[0], b[0], a[0]);
                lemma_precedes_irreflexive(a[0]);
            } else {
                lemma_precedes_irreflexive(b[0]);
            }
        }
        assert(a[0] == b[0]);
        let a1 = a.drop_first();
        let b1 = b.drop_first();
        assert forall|x: Seq<char>| a1.to_set().contains(x) implies b1.to_set().contains(x) by {
            assert(a1.contains(x));
            let k = choose|k: int| 0 <= k < a1.len() && a1[k] == x;
            assert(a[k + 1] == x);
            assert(precedes(a[0], a[k + 1]));
            lemma_precedes_irreflexive(x);
            assert(a.contains(x));
            assert(a.to_set().contains(x));
            assert(b.contains(x));
            let m = choose|m: int| 0 <= m < b.len() && b[m] == x;
            assert(m != 0);
            assert(b1[m - 1] == x);
            assert(b1.contains(x));
        }
        assert forall|x: Seq<char>| b1.to_set().contains(x) implies a1.to_set().contains(x) by {
            assert(b1.contains(x));
            let k = choose|k: int| 0 <= k < b1.len() && b1[k] == x;
            assert(b[k + 1] == x);
            assert(precedes(b[0], b[k + 1]));
            lemma_precedes_irreflexive(x);
            assert(b.contains(x));
            assert(b.to_set().contains(x));
            assert(a.contains(x));
            let m = choose|m: int| 0 <= m < a.len() && a[m] == x;
            assert(m != 0);
            assert(a1[m - 1] == x);
            assert(a1.contains(x));
        }
        assert(a1.to_set() =~= b1.to_set());
        assert forall|p: int, q: int| 0 <= p < q < a1.len() implies precedes(
            #[trigger] a1[p],
            #[trigger] a1[q],
        ) by {
            assert(precedes(a[p + 1], a[q + 1]));
        }
        assert forall|p: int, q: int| 0 <= p < q < b1.len() implies precedes(
            #[trigger] b1[p],
            #[trigger] b1[q],
        ) by {
            assert(precedes(b[p + 1], b[q + 1]));
        }
        lemma_sorted_unique(a1, b1);
        assert(a =~= seq![a[0]] + a1);
        assert(b =~= seq![b[0]] + b1);
    }
}

/// The canonical dataset of a sequence of records is unique: any two
/// results of replacing the dataset with the same records are equal.
pub proof fn lemma_canonical_unique(d1: Seq<Seq<char>>, d2: Seq<Seq<char>>, s: Seq<Seq<char>>)
    requires
        canonical_of(d1, s),
        canonical_of(d2, s),
    ensures
        d1 == d2,
{
    lemma_sorted_unique(d1, d2);
}

/// Three-way comparison of two addresses in byte-wise lexicographic order.
pub fn compare(a: &str, b: &str) -> (r: Ordering)
    ensures
        (r is Less) <==> precedes(a@, b@),
        (r is Equal) <==> a@ == b@,
        (r is Greater) <==> precedes(b@, a@),
{
    let x = a.as_bytes();
    let y = b.as_bytes();
    let ghost bx = bytes_of(a@);
    let ghost by = bytes_of(b@);
    proof {
        lemma_precedes_irreflexive(a@);
        lemma_precedes_irreflexive(b@);
        if a@ != b@ {
            lemma_precedes_total(a@, b@);
        }
        if precedes(a@, b@) && precedes(b@, a@) {
            lemma_precedes_transitive(a@, b@, a@);
        }
    }
    let mut i: usize = 0;
    assert(x@.subrange(0, 0) =~= y@.subrange(0, 0));
    while i < x.len() && i < y.len()
        invariant
            bx == bytes_of(a@),
            by == bytes_of(b@),
            x@ == bx,
            y@ == by,
            i <= x@.len(),
            i <= y@.len(),
            x@.subrange(0, i as int) == y@.subrange(0, i as int),
            !precedes(a@, a@),
            !precedes(b@, b@),
            a@ != b@ ==> precedes(a@, b@) || precedes(b@, a@),
            !(precedes(a@, b@) && precedes(b@, a@)),
        decreases x@.len() - i,
    {
        if x[i] != y[i] {
            proof {
                let ghost rx = bx.subrange(i as int, bx.len() as int);
                let ghost ry = by.subrange(i as int, by.len() as int);
                assert(rx[0] == x@[i as int]);
                assert(ry[0] == y@[i as int]);
                lemma_lex_skip(bx, by, i as int);
                lemma_lex_skip(by, bx, i as int);
                assert(bx != by);
            }
            if x[i] < y[i] {
                return Ordering::Less;
            } else {
                return Ordering::Greater;
            }
        }
        proof {
            assert(x@.subrange(0, i + 1) =~= x@.subrange(0, i as int).push(x@[i as int]));
            assert(y@.subrange(0, i + 1) =~= y@.subrange(0, i as int).push(y@[i as int]));
        }
        i = i + 1;
    }
    proof {
        lemma_lex_skip(bx, by, i as int);
        lemma_lex_skip(by, bx, i as int);
    }
    if x.len() == y.len() {
        proof {
            assert(bx =~= bx.subrange(0, i as int));
            assert(by =~= by.subrange(0, i as int));
            lemma_bytes_injective(a@, b@);
        }
        Ordering::Equal
    } else if x.len() < y.len() {
        proof {
            if a@ == b@ {
                assert(bx.len() == by.len());
            }
        }
        Ordering::Less
    } else {
        proof {
            if a@ == b@ {
                assert(bx.len() == by.len());
            }
        }
        Ordering::Greater
    }
}

} // verus!
