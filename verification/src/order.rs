//! Strict total orders: sequences compared element by element, and text compared
//! by its UTF-8 bytes.

use vstd::prelude::*;
use vstd::utf8;

verus! {

/// The outcome of comparing two values.
#[derive(Debug, Clone, Copy, PartialEq, Eq, Structural)]
pub enum Order {
    Less,
    Equal,
    Greater,
}

/// `lt` is a strict total order.
pub open spec fn strict_total<T>(lt: spec_fn(T, T) -> bool) -> bool {
    &&& forall|x: T| !#[trigger] lt(x, x)
    &&& forall|x: T, y: T, z: T| #[trigger] lt(x, y) && #[trigger] lt(y, z) ==> lt(x, z)
    &&& forall|x: T, y: T| #[trigger] lt(x, y) || x == y || lt(y, x)
}

/// `a` and `b` have the same first `k` elements.
pub open spec fn agree_up_to<T>(a: Seq<T>, b: Seq<T>, k: int) -> bool {
    &&& 0 <= k <= a.len()
    &&& k <= b.len()
    &&& forall|i: int| 0 <= i < k ==> a[i] == b[i]
}

/// `a` comes before `b` and the comparison is decided at position `k`: there `a`
/// ends and `b` goes on, or the two elements there are in order.
pub open spec fn decided_at<T>(a: Seq<T>, b: Seq<T>, lt: spec_fn(T, T) -> bool, k: int) -> bool {
    &&& agree_up_to(a, b, k)
    &&& k < b.len()
    &&& k == a.len() || lt(a[k], b[k])
}

/// Lexicographic order over the element order `lt`; a proper prefix comes first.
pub open spec fn lex_less<T>(a: Seq<T>, b: Seq<T>, lt: spec_fn(T, T) -> bool) -> bool {
    exists|k: int| decided_at(a, b, lt, k)
}

/// No sequence comes before itself.
pub proof fn lemma_lex_irreflexive<T>(a: Seq<T>, lt: spec_fn(T, T) -> bool)
    requires
        strict_total(lt),
    ensures
        !lex_less(a, a, lt),
{
}

/// Lexicographic order is transitive.
pub proof fn lemma_lex_transitive<T>(a: Seq<T>, b: Seq<T>, c: Seq<T>, lt: spec_fn(T, T) -> bool)
    requires
        strict_total(lt),
        lex_less(a, b, lt),
        lex_less(b, c, lt),
    ensures
        lex_less(a, c, lt),
{
    let k = choose|k: int| decided_at(a, b, lt, k);
    let m = choose|m: int| decided_at(b, c, lt, m);
    let d = if k < m {
        k
    } else {
        m
    };
    assert(decided_at(a, c, lt, d));
}

/// Of two different sequences one comes first.
pub proof fn lemma_lex_total<T>(a: Seq<T>, b: Seq<T>, lt: spec_fn(T, T) -> bool)
    requires
        strict_total(lt),
    ensures
        lex_less(a, b, lt) || a == b || lex_less(b, a, lt),
{
    lemma_lex_total_from(a, b, lt, 0);
}

proof fn lemma_lex_total_from<T>(a: Seq<T>, b: Seq<T>, lt: spec_fn(T, T) -> bool, k: int)
    requires
        strict_total(lt),
        agree_up_to(a, b, k),
    ensures
        lex_less(a, b, lt) || a == b || lex_less(b, a, lt),
    decreases a.len() - k,
{
    if k == a.len() {
        if k == b.len() {
            assert(a =~= b);
        } else {
            assert(decided_at(a, b, lt, k));
        }
    } else if k == b.len() {
        assert(decided_at(b, a, lt, k));
    } else if lt(a[k], b[k]) {
        assert(decided_at(a, b, lt, k));
    } else if lt(b[k], a[k]) {
        assert(decided_at(b, a, lt, k));
    } else {
        lemma_lex_total_from(a, b, lt, k + 1);
    }
}

/// The order of bytes by their value.
pub open spec fn byte_order() -> spec_fn(u8, u8) -> bool {
    |x: u8, y: u8| x < y
}

/// The order of text: by its UTF-8 bytes.
pub open spec fn text_less(a: Seq<char>, b: Seq<char>) -> bool {
    lex_less(utf8::encode_utf8(a), utf8::encode_utf8(b), byte_order())
}

/// No text comes before itself.
pub proof fn lemma_text_irreflexive(a: Seq<char>)
    ensures
        !text_less(a, a),
{
    lemma_lex_irreflexive(utf8::encode_utf8(a), byte_order());
}

/// Text order is transitive.
pub proof fn lemma_text_transitive(a: Seq<char>, b: Seq<char>, c: Seq<char>)
    requires
        text_less(a, b),
        text_less(b, c),
    ensures
        text_less(a, c),
{
    lemma_lex_transitive(utf8::encode_utf8(a), utf8::encode_utf8(b), utf8::encode_utf8(c), byte_order());
}

/// Of two different texts one comes first.
pub proof fn lemma_text_total(a: Seq<char>, b: Seq<char>)
    ensures
        text_less(a, b) || a == b || text_less(b, a),
{
    lemma_lex_total(utf8::encode_utf8(a), utf8::encode_utf8(b), byte_order());
    utf8::encode_utf8_decode_utf8(a);
    utf8::encode_utf8_decode_utf8(b);
}

/// Compares two texts by their UTF-8 bytes.
pub fn text_order(a: &str, b: &str) -> (r: Order)
    ensures
        r == Order::Less <==> text_less(a@, b@),
        r == Order::Equal <==> a@ == b@,
        r == Order::Greater <==> text_less(b@, a@),
{
    let x = a.as_bytes();
    let y = b.as_bytes();
    proof {
        utf8::encode_utf8_decode_utf8(a@);
        utf8::encode_utf8_decode_utf8(b@);
        lemma_text_irreflexive(a@);
        lemma_text_irreflexive(b@);
        if text_less(a@, b@) && text_less(b@, a@) {
            lemma_text_transitive(a@, b@, a@);
        }
    }
    let mut i: usize = 0;
    while i < x.len() && i < y.len()
        invariant
            x@ == utf8::encode_utf8(a@),
            y@ == utf8::encode_utf8(b@),
            agree_up_to(x@, y@, i as int),
            !(text_less(a@, b@) && text_less(b@, a@)),
            !text_less(a@, a@),
        decreases x.len() - i,
    {
        if x[i] < y[i] {
            assert(decided_at(x@, y@, byte_order(), i as int));
            return Order::Less;
        }
        if y[i] < x[i] {
            assert(decided_at(y@, x@, byte_order(), i as int));
            return Order::Greater;
        }
        i = i + 1;
    }
    if i < y.len() {
        assert(decided_at(x@, y@, byte_order(), i as int));
        Order::Less
    } else if i < x.len() {
        assert(decided_at(y@, x@, byte_order(), i as int));
        Order::Greater
    } else {
        assert(x@ =~= y@);
        Order::Equal
    }
}

/// Whether two texts are the same.
pub fn text_equal(a: &str, b: &str) -> (r: bool)
    ensures
        r == (a@ == b@),
{
    text_order(a, b) == Order::Equal
}

/// What a list of texts says.
pub open spec fn texts(list: Seq<String>) -> Seq<Seq<char>> {
    Seq::new(list.len(), |i: int| list[i]@)
}

/// A text comes before another exactly if, behind some bytes that both begin with, it ends
/// and the other goes on, or its next byte is the smaller one.
pub proof fn law_text_order_is_by_bytes(a: Seq<char>, b: Seq<char>)
    ensures
        text_less(a, b) <==> exists|k: int|
            0 <= k < utf8::encode_utf8(b).len() && k <= utf8::encode_utf8(a).len()
                && #[trigger] utf8::encode_utf8(a).take(k) == utf8::encode_utf8(b).take(k) && (k
                == utf8::encode_utf8(a).len() || utf8::encode_utf8(a)[k] < utf8::encode_utf8(
                b,
            )[k]),
{
    let x = utf8::encode_utf8(a);
    let y = utf8::encode_utf8(b);
    if text_less(a, b) {
        let k = choose|k: int| decided_at(x, y, byte_order(), k);
        assert(x.take(k) =~= y.take(k));
    }
    assert forall|k: int|
        0 <= k < y.len() && k <= x.len() && #[trigger] x.take(k) == y.take(k) && (k == x.len()
            || x[k] < y[k]) implies text_less(a, b) by {
        assert forall|i: int| 0 <= i < k implies x[i] == y[i] by {
            assert(x.take(k)[i] == y.take(k)[i]);
        }
        assert(decided_at(x, y, byte_order(), k));
    }
}

} // verus!
