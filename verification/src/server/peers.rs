//! The addresses of the other nodes.

use crate::map::SortedMap;
use crate::order;
use vstd::prelude::*;
use vstd::string::*;

verus! {

/// The text begins with `http`.
pub open spec fn begins_with_http(text: Seq<char>) -> bool {
    text.len() >= 4 && text.take(4) == "http"@
}

/// The address with a scheme: `http` where it names none.
pub open spec fn with_scheme(addr: Seq<char>) -> Seq<char> {
    if begins_with_http(addr) {
        addr
    } else {
        "http://"@ + addr
    }
}

/// The address with a scheme.
pub fn full_addr(addr: &str) -> (r: String)
    ensures
        r@ == with_scheme(addr@),
{
    let n = addr.unicode_len();
    if n >= 4 && order::text_equal(addr.substring_char(0, 4), "http") {
        assert(addr@.take(4) =~= addr@.subrange(0, 4));
        addr.to_owned()
    } else {
        proof {
            if addr@.len() >= 4 {
                assert(addr@.take(4) =~= addr@.subrange(0, 4));
            }
        }
        let mut r = "http://".to_owned();
        r.append(addr);
        r
    }
}

/// The place of the first `=` in a text, from `from` on; its length if there is none.
pub open spec fn first_equals(text: Seq<char>, from: int) -> int
    decreases text.len() - from,
{
    if from >= text.len() {
        text.len() as int
    } else if text[from] == '=' {
        from
    } else {
        first_equals(text, from + 1)
    }
}

/// The peers that a list of `id=addr` texts names. A text without `=` names none; of two
/// with the same id the later one counts.
pub open spec fn peers_of(list: Seq<Seq<char>>) -> Map<Seq<char>, Seq<char>>
    decreases list.len(),
{
    if list.len() == 0 {
        Map::empty()
    } else {
        let front = peers_of(list.drop_last());
        let text = list.last();
        let at = first_equals(text, 0);
        if at < text.len() {
            front.insert(text.take(at), with_scheme(text.skip(at + 1)))
        } else {
            front
        }
    }
}

fn find_equals(text: &str, n: usize) -> (r: usize)
    requires
        n == text@.len(),
    ensures
        r == first_equals(text@, 0),
        r <= n,
{
    let mut i: usize = 0;
    while i < n && text.get_char(i) != '='
        invariant
            i <= n == text@.len(),
            first_equals(text@, 0) == first_equals(text@, i as int),
        decreases n - i,
    {
        i = i + 1;
    }
    i
}

/// The peers that the command line names.
pub fn parse_peers(list: &Vec<String>) -> (r: SortedMap<String, String>)
    ensures
        r@ == peers_of(order::texts(list@)),
{
    let ghost all = order::texts(list@);
    let n = list.len();
    let mut r: SortedMap<String, String> = SortedMap::new();
    let mut i: usize = 0;
    assert(all.take(0) =~= Seq::<Seq<char>>::empty());
    while i < n
        invariant
            i <= n == list@.len(),
            all == order::texts(list@),
            r@ == peers_of(all.take(i as int)),
        decreases n - i,
    {
        let text = list[i].as_str();
        proof {
            assert(all.take(i + 1).drop_last() =~= all.take(i as int));
            assert(all.take(i + 1).last() == text@);
        }
        let len = text.unicode_len();
        let at = find_equals(text, len);
        if at < len {
            let id = text.substring_char(0, at);
            let addr = text.substring_char(at + 1, len);
            proof {
                assert(text@.take(at as int) =~= text@.subrange(0, at as int));
                assert(text@.skip(at + 1) =~= text@.subrange(at + 1, len as int));
            }
            r.insert(id.to_owned(), full_addr(addr));
        }
        i = i + 1;
    }
    assert(all.take(n as int) =~= all);
    r
}

/// An address that has a scheme keeps it, and completing an address twice does no more
/// than once.
pub proof fn law_scheme_is_added_once(addr: Seq<char>)
    ensures
        begins_with_http(with_scheme(addr)),
        with_scheme(with_scheme(addr)) == with_scheme(addr),
{
    reveal_strlit("http");
    reveal_strlit("http://");
    if !begins_with_http(addr) {
        assert(("http://"@ + addr).take(4) =~= "http"@);
    }
}

/// An address that begins with `http` is taken as it is, and any other gets `http://` in
/// front of it.
pub proof fn law_scheme_is_added_where_there_is_none(addr: Seq<char>)
    ensures
        addr.len() >= 4 && addr[0] == 'h' && addr[1] == 't' && addr[2] == 't' && addr[3] == 'p'
            ==> with_scheme(addr) == addr,
        !(addr.len() >= 4 && addr[0] == 'h' && addr[1] == 't' && addr[2] == 't' && addr[3] == 'p')
            ==> with_scheme(addr).len() == addr.len() + 7 && with_scheme(addr).take(7)
            == "http://"@ && with_scheme(addr).skip(7) == addr,
{
    reveal_strlit("http");
    reveal_strlit("http://");
    if addr.len() >= 4 {
        let front = addr.take(4);
        assert(front[0] == addr[0] && front[1] == addr[1] && front[2] == addr[2] && front[3]
            == addr[3]);
        if addr[0] == 'h' && addr[1] == 't' && addr[2] == 't' && addr[3] == 'p' {
            assert(front =~= "http"@);
        }
    }
    assert(("http://"@ + addr).take(7) =~= "http://"@);
    assert(("http://"@ + addr).skip(7) =~= addr);
}

/// The text names the peer `id` at the address `addr`: it is the id, an `=` and the address,
/// where the id holds no `=`.
pub open spec fn names_peer(text: Seq<char>, id: Seq<char>, addr: Seq<char>) -> bool {
    text == id.push('=') + addr && !id.contains('=')
}

proof fn lemma_first_equals(text: Seq<char>, from: int)
    requires
        0 <= from <= text.len(),
    ensures
        from <= first_equals(text, from) <= text.len(),
        forall|i: int| from <= i < first_equals(text, from) ==> text[i] != '=',
        first_equals(text, from) < text.len() ==> text[first_equals(text, from)] == '=',
    decreases text.len() - from,
{
    if from < text.len() && text[from] != '=' {
        lemma_first_equals(text, from + 1);
    }
}

proof fn lemma_named(text: Seq<char>, id: Seq<char>, addr: Seq<char>)
    ensures
        names_peer(text, id, addr) <==> ({
            let at = first_equals(text, 0);
            at < text.len() && id == text.take(at) && addr == text.skip(at + 1)
        }),
{
    let at = first_equals(text, 0);
    lemma_first_equals(text, 0);
    if names_peer(text, id, addr) {
        assert(text[id.len() as int] == '=');
        if at < id.len() {
            assert(id[at] == text[at]);
            assert(id.contains(id[at]));
        }
        assert(at == id.len());
        assert(text.take(at) =~= id);
        assert(text.skip(at + 1) =~= addr);
    }
    if at < text.len() && id == text.take(at) && addr == text.skip(at + 1) {
        assert(text =~= id.push('=') + addr);
        if id.contains('=') {
            assert(text[id.index_of('=')] == '=');
        }
    }
}

/// A peer is known exactly if one of the texts names it, and its address is the one that the
/// last such text gives, with a scheme.
pub proof fn law_each_text_names_a_peer(list: Seq<Seq<char>>, i: int, id: Seq<char>, addr: Seq<char>)
    requires
        0 <= i < list.len(),
        names_peer(list[i], id, addr),
        forall|j: int, other: Seq<char>|
            i < j < list.len() ==> !#[trigger] names_peer(list[j], id, other),
    ensures
        peers_of(list).contains_key(id),
        peers_of(list)[id] == with_scheme(addr),
    decreases list.len(),
{
    let front = list.drop_last();
    let last = list.last();
    let at = first_equals(last, 0);
    if i == front.len() {
        lemma_named(last, id, addr);
    } else {
        assert(front[i] == list[i]);
        assert forall|j: int, other: Seq<char>| i < j < front.len() implies !#[trigger] names_peer(
            front[j],
            id,
            other,
        ) by {
            assert(!names_peer(list[j], id, other));
        }
        law_each_text_names_a_peer(front, i, id, addr);
        lemma_first_equals(last, 0);
        if at < last.len() {
            lemma_named(last, last.take(at), last.skip(at + 1));
            assert(!names_peer(list[list.len() - 1], id, last.skip(at + 1)));
        }
    }
}

/// Nobody is a peer that no text names.
pub proof fn law_only_named_peers_are_known(list: Seq<Seq<char>>, id: Seq<char>)
    requires
        peers_of(list).contains_key(id),
    ensures
        exists|i: int, addr: Seq<char>|
            0 <= i < list.len() && #[trigger] names_peer(list[i], id, addr),
    decreases list.len(),
{
    let front = list.drop_last();
    let last = list.last();
    let at = first_equals(last, 0);
    lemma_first_equals(last, 0);
    if at < last.len() && last.take(at) == id {
        lemma_named(last, id, last.skip(at + 1));
        assert(names_peer(list[list.len() - 1], id, last.skip(at + 1)));
    } else {
        law_only_named_peers_are_known(front, id);
        let (i, addr) = choose|i: int, addr: Seq<char>|
            0 <= i < front.len() && #[trigger] names_peer(front[i], id, addr);
        assert(names_peer(list[i], id, addr));
    }
}

} // verus!
