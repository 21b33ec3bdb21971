//! The order of serialized keys: bytewise lexicographic, as in the base trie.

use vstd::prelude::*;

verus! {

/// `a` comes strictly before `b` in bytewise lexicographic order.
pub open spec fn lex_lt(a: Seq<u8>, b: Seq<u8>) -> bool
    decreases a.len(),
{
    if b.len() == 0 {
        false
    } else if a.len() == 0 {
        true
    } else if a[0] != b[0] {
        a[0] < b[0]
    } else {
        lex_lt(a.drop_first(), b.drop_first())
    }
}

/// `a` comes before `b`, or is `b`.
pub open spec fn lex_le(a: Seq<u8>, b: Seq<u8>) -> bool {
    a == b || lex_lt(a, b)
}

/// The keys are strictly ascending, so none occurs twice.
pub open spec fn ascending(keys: Seq<Seq<u8>>) -> bool {
    forall|i: int, j: int| 0 <= i < j < keys.len() ==> lex_lt(#[trigger] keys[i], #[trigger] keys[j])
}

/// The byte sequences that a vector of keys holds.
pub open spec fn key_views(keys: Seq<Vec<u8>>) -> Seq<Seq<u8>> {
    Seq::new(keys.len(), |i: int| keys[i]@)
}

/// How one key stands to another.
#[derive(Clone, Copy, Debug, PartialEq, Eq, Structural)]
pub enum KeyOrder {
    Before,
    Same,
    After,
}

/// No key comes before itself.
pub proof fn lemma_lex_irreflexive(a: Seq<u8>)
    ensures
        !lex_lt(a, a),
    decreases a.len(),
{
    if a.len() > 0 {
        lemma_lex_irreflexive(a.drop_first());
    }
}

/// Of two keys, not each comes before the other.
pub proof fn lemma_lex_asymmetric(a: Seq<u8>, b: Seq<u8>)
    requires
        lex_lt(a, b),
    ensures
        !lex_lt(b, a),
    decreases a.len(),
{
    if a.len() > 0 && b.len() > 0 && a[0] == b[0] {
        lemma_lex_asymmetric(a.drop_first(), b.drop_first());
    }
}

/// A key that comes before a second comes before every key after that one.
pub proof fn lemma_lex_transitive(a: Seq<u8>, b: Seq<u8>, c: Seq<u8>)
    requires
        lex_lt(a, b),
        lex_lt(b, c),
    ensures
        lex_lt(a, c),
    decreases a.len(),
{
    if a.len() > 0 && b.len() > 0 && c.len() > 0 && a[0] == b[0] && b[0] == c[0] {
        lemma_lex_transitive(a.drop_first(), b.drop_first(), c.drop_first());
    }
}

/// Any two keys are equal or one comes before the other.
pub proof fn lemma_lex_total(a: Seq<u8>, b: Seq<u8>)
    ensures
        lex_lt(a, b) || a == b || lex_lt(b, a),
    decreases a.len(),
{
    if a.len() == 0 || b.len() == 0 {
        if a.len() == 0 && b.len() == 0 {
            assert(a =~= b);
        }
    } else if a[0] == b[0] {
        lemma_lex_total(a.drop_first(), b.drop_first());
        if a.drop_first() == b.drop_first() {
            assert(a =~= seq![a[0]] + a.drop_first());
            assert(b =~= seq![b[0]] + b.drop_first());
        }
    }
}

/// A prefix comes before every key that it begins, or is that key.
pub proof fn lemma_prefix_is_least(prefix: Seq<u8>, key: Seq<u8>)
    requires
        prefix.is_prefix_of(key),
    ensures
        lex_le(prefix, key),
    decreases prefix.len(),
{
    if prefix.len() == 0 {
        if key.len() == 0 {
            assert(prefix =~= key);
        }
    } else {
        assert(prefix[0] == key.subrange(0, prefix.len() as int)[0]);
        assert(prefix.drop_first() =~= key.drop_first().subrange(0, prefix.len() - 1)) by {
            assert forall|i: int| 0 <= i < prefix.len() - 1 implies prefix.drop_first()[i]
                == key.drop_first().subrange(0, prefix.len() - 1)[i] by {
                assert(prefix[i + 1] == key.subrange(0, prefix.len() as int)[i + 1]);
            }
        }
        lemma_prefix_is_least(prefix.drop_first(), key.drop_first());
        if prefix.drop_first() == key.drop_first() {
            assert(prefix =~= key);
        }
    }
}

/// The keys that a prefix begins lie together: a key between the prefix and
/// one of them is one of them.
pub proof fn lemma_prefix_interval(prefix: Seq<u8>, mid: Seq<u8>, high: Seq<u8>)
    requires
        lex_le(prefix, mid),
        lex_lt(mid, high),
        prefix.is_prefix_of(high),
    ensures
        prefix.is_prefix_of(mid),
    decreases prefix.len(),
{
    if prefix.len() == 0 {
        assert(prefix =~= mid.subrange(0, 0));
    } else if prefix == mid {
        assert(prefix =~= mid.subrange(0, prefix.len() as int));
    } else {
        assert(prefix[0] == high.subrange(0, prefix.len() as int)[0]);
        assert(mid.len() > 0);
        assert(mid[0] == prefix[0]);
        assert(prefix.drop_first() =~= high.drop_first().subrange(0, prefix.len() - 1)) by {
            assert forall|i: int| 0 <= i < prefix.len() - 1 implies prefix.drop_first()[i]
                == high.drop_first().subrange(0, prefix.len() - 1)[i] by {
                assert(prefix[i + 1] == high.subrange(0, prefix.len() as int)[i + 1]);
            }
        }
        lemma_prefix_interval(prefix.drop_first(), mid.drop_first(), high.drop_first());
        assert(prefix =~= mid.subrange(0, prefix.len() as int)) by {
            assert forall|i: int| 0 <= i < prefix.len() implies prefix[i] == mid.subrange(
                0,
                prefix.len() as int,
            )[i] by {
                if i > 0 {
                    assert(prefix.drop_first()[i - 1] == mid.drop_first().subrange(
                        0,
                        prefix.len() - 1,
                    )[i - 1]);
                }
            }
        }
    }
}

/// Compares two keys bytewise.
pub fn compare(a: &[u8], b: &[u8]) -> (order: KeyOrder)
    ensures
        order == KeyOrder::Before <==> lex_lt(a@, b@),
        order == KeyOrder::Same <==> a@ == b@,
        order == KeyOrder::After <==> lex_lt(b@, a@),
{
    let mut i: usize = 0;
    proof {
        assert(a@.skip(0) =~= a@);
        assert(b@.skip(0) =~= b@);
    }
    while i < a.len() && i < b.len()
        invariant
            i <= a.len(),
            i <= b.len(),
            forall|j: int| 0 <= j < i ==> a@[j] == b@[j],
            lex_lt(a@, b@) == lex_lt(a@.skip(i as int), b@.skip(i as int)),
            lex_lt(b@, a@) == lex_lt(b@.skip(i as int), a@.skip(i as int)),
        decreases a.len() - i,
    {
        proof {
            assert(a@.skip(i as int).drop_first() =~= a@.skip(i + 1));
            assert(b@.skip(i as int).drop_first() =~= b@.skip(i + 1));
            assert(a@.skip(i as int)[0] == a@[i as int]);
            assert(b@.skip(i as int)[0] == b@[i as int]);
        }
        if a[i] < b[i] {
            assert(a@ != b@);
            return KeyOrder::Before;
        }
        if a[i] > b[i] {
            assert(a@ != b@);
            return KeyOrder::After;
        }
        i += 1;
    }
    if i < b.len() {
        assert(a@.skip(i as int).len() == 0);
        assert(a@ != b@);
        KeyOrder::Before
    } else if i < a.len() {
        assert(b@.skip(i as int).len() == 0);
        assert(a@ != b@);
        KeyOrder::After
    } else {
        proof {
            assert(a@ =~= b@);
            lemma_lex_irreflexive(a@);
        }
        KeyOrder::Same
    }
}

/// Tells whether `key` begins with `prefix`.
pub fn starts_with(key: &[u8], prefix: &[u8]) -> (found: bool)
    ensures
        found == prefix@.is_prefix_of(key@),
{
    if prefix.len() > key.len() {
        return false;
    }
    let mut i: usize = 0;
    while i < prefix.len()
        invariant
            i <= prefix.len(),
            prefix.len() <= key.len(),
            forall|j: int| 0 <= j < i ==> prefix@[j] == key@[j],
        decreases prefix.len() - i,
    {
        if prefix[i] != key[i] {
            assert(prefix@[i as int] != key@.subrange(0, prefix@.len() as int)[i as int]);
            return false;
        }
        i += 1;
    }
    assert(prefix@ =~= key@.subrange(0, prefix@.len() as int));
    true
}

/// Tells whether the keys are strictly ascending.
pub fn is_ascending(keys: &Vec<Vec<u8>>) -> (sorted: bool)
    ensures
        sorted == ascending(key_views(keys@)),
{
    let ghost ks = key_views(keys@);
    if keys.len() < 2 {
        return true;
    }
    let mut i: usize = 1;
    while i < keys.len()
        invariant
            1 <= i <= keys.len(),
            ks == key_views(keys@),
            forall|a: int, b: int| 0 <= a < b < i ==> lex_lt(#[trigger] ks[a], #[trigger] ks[b]),
        decreases keys.len() - i,
    {
        assert(ks[i - 1] == keys@[i - 1]@);
        assert(ks[i as int] == keys@[i as int]@);
        if compare(keys[i - 1].as_slice(), keys[i].as_slice()) != KeyOrder::Before {
            return false;
        }
        proof {
            assert forall|a: int, b: int| 0 <= a < b < i + 1 implies lex_lt(
                #[trigger] ks[a],
                #[trigger] ks[b],
            ) by {
                if b == i && a < i - 1 {
                    lemma_lex_transitive(ks[a], ks[i - 1], ks[i as int]);
                }
            }
        }
        i += 1;
    }
    true
}

} // verus!
