use vstd::prelude::*;

verus! {

/// Lexicographic order on byte strings, compared from position `i` on.
pub open spec fn lt_from(a: Seq<u8>, b: Seq<u8>, i: int) -> bool
    decreases a.len() - i,
{
    if i < 0 || i >= a.len() {
        0 <= i < b.len()
    } else if i >= b.len() {
        false
    } else if a[i] != b[i] {
        a[i] < b[i]
    } else {
        lt_from(a, b, i + 1)
    }
}

/// `a` sorts strictly before `b` in byte-wise lexicographic order.
pub open spec fn name_lt(a: Seq<u8>, b: Seq<u8>) -> bool {
    lt_from(a, b, 0)
}

proof fn lemma_lt_from_irreflexive(a: Seq<u8>, i: int)
    requires
        0 <= i,
    ensures
        !lt_from(a, a, i),
    decreases a.len() - i,
{
    if i < a.len() {
        lemma_lt_from_irreflexive(a, i + 1);
    }
}

proof fn lemma_lt_from_transitive(a: Seq<u8>, b: Seq<u8>, c: Seq<u8>, i: int)
    requires
        0 <= i,
        lt_from(a, b, i),
        lt_from(b, c, i),
    ensures
        lt_from(a, c, i),
    decreases a.len() - i,
{
    if i < a.len() && i < b.len() && i < c.len() && a[i] == b[i] && b[i] == c[i] {
        lemma_lt_from_transitive(a, b, c, i + 1);
    }
}

/// No name sorts before itself.
pub proof fn lemma_name_lt_irreflexive(a: Seq<u8>)
    ensures
        !name_lt(a, a),
{
    lemma_lt_from_irreflexive(a, 0);
}

/// Sorting before is transitive.
pub proof fn lemma_name_lt_transitive(a: Seq<u8>, b: Seq<u8>, c: Seq<u8>)
    requires
        name_lt(a, b),
        name_lt(b, c),
    ensures
        name_lt(a, c),
{
    lemma_lt_from_transitive(a, b, c, 0);
}

/// Compares two names byte by byte; a proper prefix sorts first.
pub fn compare_names(a: &[u8], b: &[u8]) -> (r: core::cmp::Ordering)
    ensures
        (r == core::cmp::Ordering::Less) == name_lt(a@, b@),
        (r == core::cmp::Ordering::Equal) == (a@ == b@),
        (r == core::cmp::Ordering::Greater) == name_lt(b@, a@),
{
    let mut i: usize = 0;
    while i < a.len() && i < b.len()
        invariant
            i <= a.len(),
            i <= b.len(),
            a@.subrange(0, i as int) == b@.subrange(0, i as int),
            name_lt(a@, b@) == lt_from(a@, b@, i as int),
            name_lt(b@, a@) == lt_from(b@, a@, i as int),
        decreases a.len() - i,
    {
        if a[i] != b[i] {
            if a[i] < b[i] {
                assert(a@[i as int] != b@[i as int]);
                return core::cmp::Ordering::Less;
            } else {
                assert(a@[i as int] != b@[i as int]);
                return core::cmp::Ordering::Greater;
            }
        }
        assert(a@.subrange(0, i + 1) =~= a@.subrange(0, i as int).push(a@[i as int]));
        assert(b@.subrange(0, i + 1) =~= b@.subrange(0, i as int).push(b@[i as int]));
        i = i + 1;
    }
    if a.len() < b.len() {
        return core::cmp::Ordering::Less;
    } else if b.len() < a.len() {
        return core::cmp::Ordering::Greater;
    }
    assert(a@ =~= a@.subrange(0, i as int));
    assert(b@ =~= b@.subrange(0, i as int));
    core::cmp::Ordering::Equal
}

} // verus!
