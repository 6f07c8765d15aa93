//! Lexicographic order on sequences.
use vstd::prelude::*;

verus! {

/// Where one thing stands against another.
#[derive(Debug, Clone, Copy, PartialEq, Eq, Structural)]
pub enum Order {
    Before,
    Same,
    After,
}

/// `a` and `b` agree before `k`, and at `k` either `a` has ended and `b` has not, or `a` has the
/// smaller element.
pub open spec fn parts_at<A>(
    a: Seq<A>,
    b: Seq<A>,
    before: spec_fn(A, A) -> bool,
    k: int,
) -> bool {
    &&& 0 <= k <= a.len()
    &&& k < b.len()
    &&& a.take(k) == b.take(k)
    &&& k == a.len() || before(a[k], b[k])
}

/// Dictionary order: what decides is the first place where the two differ, and a beginning comes
/// before what it begins.
pub open spec fn lex_before<A>(a: Seq<A>, b: Seq<A>, before: spec_fn(A, A) -> bool) -> bool {
    exists|k: int| parts_at(a, b, before, k)
}

/// `before` orders strictly and leaves no two different things unordered.
pub open spec fn strict_total<A>(before: spec_fn(A, A) -> bool) -> bool {
    &&& forall|x: A| !#[trigger] before(x, x)
    &&& forall|x: A, y: A, z: A|
        #![trigger before(x, y), before(y, z)]
        before(x, y) && before(y, z) ==> before(x, z)
    &&& forall|x: A, y: A| x == y || #[trigger] before(x, y) || before(y, x)
}

/// Dictionary order is as good an order as the one on the elements.
pub proof fn lemma_lex_strict_total<A>(before: spec_fn(A, A) -> bool)
    requires
        strict_total(before),
    ensures
        strict_total(|a: Seq<A>, b: Seq<A>| lex_before(a, b, before)),
{
    let lex = |a: Seq<A>, b: Seq<A>| lex_before(a, b, before);
    assert forall|a: Seq<A>, b: Seq<A>, c: Seq<A>|
        #![trigger lex(a, b), lex(b, c)]
        lex(a, b) && lex(b, c) implies lex(a, c) by {
        lemma_lex_transitive(a, b, c, before);
    }
    assert forall|a: Seq<A>, b: Seq<A>| a == b || #[trigger] lex(a, b) || lex(b, a) by {
        assert(a.take(0) =~= b.take(0));
        lemma_lex_total(a, b, before, 0);
    }
}

proof fn lemma_lex_transitive<A>(a: Seq<A>, b: Seq<A>, c: Seq<A>, before: spec_fn(A, A) -> bool)
    requires
        strict_total(before),
        lex_before(a, b, before),
        lex_before(b, c, before),
    ensures
        lex_before(a, c, before),
{
    let i = choose|k: int| parts_at(a, b, before, k);
    let j = choose|k: int| parts_at(b, c, before, k);
    let k = if i < j {
        i
    } else {
        j
    };
    assert(a.take(k) =~= a.take(i).take(k));
    assert(b.take(k) =~= b.take(i).take(k));
    assert(b.take(k) =~= b.take(j).take(k));
    assert(c.take(k) =~= c.take(j).take(k));
    if i < j {
        assert(b[i] == b.take(j)[i]);
        assert(c[i] == c.take(j)[i]);
    }
    if j < i {
        assert(a[j] == a.take(i)[j]);
        assert(b[j] == b.take(i)[j]);
    }
    assert(parts_at(a, c, before, k));
}

proof fn lemma_lex_total<A>(a: Seq<A>, b: Seq<A>, before: spec_fn(A, A) -> bool, k: int)
    requires
        strict_total(before),
        0 <= k <= a.len(),
        k <= b.len(),
        a.take(k) == b.take(k),
    ensures
        a == b || lex_before(a, b, before) || lex_before(b, a, before),
    decreases a.len() - k,
{
    if k == a.len() && k == b.len() {
        assert(a.take(k) =~= a);
        assert(b.take(k) =~= b);
    } else if k == a.len() {
        assert(parts_at(a, b, before, k));
    } else if k == b.len() {
        assert(parts_at(b, a, before, k));
    } else if a[k] == b[k] {
        assert(a.take(k + 1) =~= a.take(k).push(a[k]));
        assert(b.take(k + 1) =~= b.take(k).push(b[k]));
        lemma_lex_total(a, b, before, k + 1);
    } else if before(a[k], b[k]) {
        assert(parts_at(a, b, before, k));
    } else {
        assert(parts_at(b, a, before, k));
    }
}

/// Dictionary order on bytes.
pub open spec fn bytes_before(a: Seq<u8>, b: Seq<u8>) -> bool {
    lex_before(a, b, |x: u8, y: u8| x < y)
}

/// Where `a` stands against `b` in dictionary order.
pub fn order_bytes(a: &[u8], b: &[u8]) -> (order: Order)
    ensures
        match order {
            Order::Before => bytes_before(a@, b@),
            Order::Same => a@ == b@,
            Order::After => bytes_before(b@, a@),
        },
{
    let ghost before = |x: u8, y: u8| x < y;
    let mut i: usize = 0;
    while i < a.len() && i < b.len()
        invariant
            i <= a.len(),
            i <= b.len(),
            before == (|x: u8, y: u8| x < y),
            a@.take(i as int) == b@.take(i as int),
        decreases a.len() - i,
    {
        if a[i] < b[i] {
            assert(parts_at(a@, b@, before, i as int));
            return Order::Before;
        }
        if b[i] < a[i] {
            assert(parts_at(b@, a@, before, i as int));
            return Order::After;
        }
        assert(a@.take(i + 1) =~= a@.take(i as int).push(a@[i as int]));
        assert(b@.take(i + 1) =~= b@.take(i as int).push(b@[i as int]));
        i += 1;
    }
    if i < b.len() {
        assert(parts_at(a@, b@, before, i as int));
        Order::Before
    } else if i < a.len() {
        assert(parts_at(b@, a@, before, i as int));
        Order::After
    } else {
        assert(a@.take(i as int) =~= a@);
        assert(b@.take(i as int) =~= b@);
        Order::Same
    }
}

} // verus!
