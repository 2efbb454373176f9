//! The order of the smart lists in the sidebar: lists with an `order`
//! first, by order and then by name; then the lists without one, by name.
//! Lists that tie keep the order they were read in.
use vstd::prelude::*;
use crate::smartlist::SmartList;
use crate::text::{
    compare_str, flip, lemma_lex_order_flip, lemma_lex_order_trans, lemma_str_order_equal, str_order,
    Order,
};

verus! {

/// What lists are ordered by: their order, if any, and their name.
pub open spec fn list_key(l: SmartList) -> (Option<i32>, Seq<char>) {
    (l.order, l.name@)
}

/// The order of two list keys.
pub open spec fn list_order(a: (Option<i32>, Seq<char>), b: (Option<i32>, Seq<char>)) -> Order {
    match (a.0, b.0) {
        (Some(x), Some(y)) => if x < y {
            Order::Less
        } else if x > y {
            Order::Greater
        } else {
            str_order(a.1, b.1)
        },
        (Some(_), None) => Order::Less,
        (None, Some(_)) => Order::Greater,
        (None, None) => str_order(a.1, b.1),
    }
}

pub proof fn lemma_list_order_flip(a: (Option<i32>, Seq<char>), b: (Option<i32>, Seq<char>))
    ensures
        list_order(b, a) == flip(list_order(a, b)),
{
    lemma_lex_order_flip(vstd::utf8::encode_utf8(a.1), vstd::utf8::encode_utf8(b.1));
}

pub proof fn lemma_list_order_equal(a: (Option<i32>, Seq<char>), b: (Option<i32>, Seq<char>))
    ensures
        (list_order(a, b) == Order::Equal) == (a == b),
{
    lemma_str_order_equal(a.1, b.1);
}

pub proof fn lemma_list_order_trans(
    a: (Option<i32>, Seq<char>),
    b: (Option<i32>, Seq<char>),
    c: (Option<i32>, Seq<char>),
)
    requires
        list_order(a, b) != Order::Greater,
        list_order(b, c) != Order::Greater,
    ensures
        list_order(a, c) != Order::Greater,
{
    lemma_list_order_equal(a, b);
    lemma_list_order_equal(b, c);
    lemma_list_order_flip(a, b);
    lemma_list_order_flip(b, c);
    lemma_list_order_flip(a, c);
    lemma_str_order_equal(a.1, c.1);
    if str_order(a.1, b.1) == Order::Less && str_order(b.1, c.1) == Order::Less {
        lemma_lex_order_trans(
            vstd::utf8::encode_utf8(a.1),
            vstd::utf8::encode_utf8(b.1),
            vstd::utf8::encode_utf8(c.1),
        );
    }
    lemma_str_order_equal(a.1, b.1);
    lemma_str_order_equal(b.1, c.1);
}

/// The lists ordered by their keys.
pub open spec fn lists_sorted(s: Seq<SmartList>) -> bool {
    forall|i: int, j: int|
        0 <= i < j < s.len() ==> list_order(list_key(s[i]), list_key(s[j])) != Order::Greater
}

/// The lists with the key `k`.
pub open spec fn with_list_key(k: (Option<i32>, Seq<char>)) -> spec_fn(SmartList) -> bool {
    |l: SmartList| list_key(l) == k
}

/// `out` is `inp` ordered by the lists' keys, lists of equal keys kept in
/// their order.
pub open spec fn is_list_sort(out: Seq<SmartList>, inp: Seq<SmartList>) -> bool {
    &&& out.len() == inp.len()
    &&& lists_sorted(out)
    &&& forall|k: (Option<i32>, Seq<char>)| #[trigger]
        out.filter(with_list_key(k)) == inp.filter(with_list_key(k))
}

proof fn lemma_filter_none(s: Seq<SmartList>, p: spec_fn(SmartList) -> bool)
    requires
        forall|i: int| 0 <= i < s.len() ==> !p(#[trigger] s[i]),
    ensures
        s.filter(p) == Seq::<SmartList>::empty(),
{
    assert(s.all(|x: SmartList| !p(x)));
    s.lemma_all_neg_filter_empty(p);
    assert(s.filter(p) =~= Seq::<SmartList>::empty());
}

/// Inserting `x` after the lists not greater than it and before the
/// greater ones keeps a stable sort stable.
proof fn lemma_insert_list(o: Seq<SmartList>, inp: Seq<SmartList>, x: SmartList, p: int)
    requires
        is_list_sort(o, inp),
        0 <= p <= o.len(),
        forall|j: int| 0 <= j < p ==> list_order(list_key(#[trigger] o[j]), list_key(x)) != Order::Greater,
        p < o.len() ==> list_order(list_key(o[p]), list_key(x)) == Order::Greater,
    ensures
        is_list_sort(o.insert(p, x), inp.push(x)),
{
    broadcast use Seq::filter_distributes_over_add, Seq::lemma_filter_push;

    let n = o.insert(p, x);
    assert forall|j: int| p <= j < o.len() implies list_order(list_key(#[trigger] o[j]), list_key(x))
        == Order::Greater by {
        lemma_list_order_flip(list_key(o[p]), list_key(x));
        if j > p {
            lemma_list_order_flip(list_key(o[j]), list_key(x));
            lemma_list_order_equal(list_key(o[j]), list_key(x));
            if list_order(list_key(o[j]), list_key(x)) != Order::Greater {
                lemma_list_order_trans(list_key(o[p]), list_key(o[j]), list_key(x));
            }
        }
    }
    assert forall|i: int, j: int| 0 <= i < j < n.len() implies list_order(
        list_key(n[i]),
        list_key(n[j]),
    ) != Order::Greater by {
        if j < p {
            assert(n[i] == o[i] && n[j] == o[j]);
        } else if j == p {
            assert(n[i] == o[i] && n[j] == x);
        } else if i < p {
            assert(n[i] == o[i] && n[j] == o[j - 1]);
        } else if i == p {
            assert(n[i] == x && n[j] == o[j - 1]);
            lemma_list_order_flip(list_key(o[j - 1]), list_key(x));
        } else {
            assert(n[i] == o[i - 1] && n[j] == o[j - 1]);
        }
    }
    let pre = o.subrange(0, p);
    let post = o.subrange(p, o.len() as int);
    assert(o =~= pre + post);
    assert(n =~= pre + seq![x] + post);
    assert forall|k: (Option<i32>, Seq<char>)| #[trigger]
        n.filter(with_list_key(k)) == inp.push(x).filter(with_list_key(k)) by {
        let w = with_list_key(k);
        assert(o.filter(w) == inp.filter(w));
        assert(o.filter(w) == pre.filter(w) + post.filter(w));
        assert(n.filter(w) == (pre + seq![x]).filter(w) + post.filter(w));
        assert(seq![x] =~= Seq::<SmartList>::empty().push(x));
        assert((pre + seq![x]) =~= pre.push(x));
        if w(x) {
            assert forall|i: int| 0 <= i < post.len() implies !w(#[trigger] post[i]) by {
                assert(post[i] == o[p + i]);
                lemma_list_order_equal(list_key(o[p + i]), list_key(x));
            }
            lemma_filter_none(post, w);
            assert(n.filter(w) =~= pre.filter(w).push(x));
            assert(o.filter(w) =~= pre.filter(w));
        } else {
            assert(n.filter(w) =~= pre.filter(w) + post.filter(w));
        }
    }
}

/// Compares two lists by their keys.
fn compare_lists(a: &SmartList, b: &SmartList) -> (r: Order)
    ensures
        r == list_order(list_key(*a), list_key(*b)),
{
    match (a.order, b.order) {
        (Some(x), Some(y)) => if x < y {
            Order::Less
        } else if x > y {
            Order::Greater
        } else {
            compare_str(a.name.as_str(), b.name.as_str())
        },
        (Some(_), None) => Order::Less,
        (None, Some(_)) => Order::Greater,
        (None, None) => compare_str(a.name.as_str(), b.name.as_str()),
    }
}

/// The lists in sidebar order: by `order` and then name, lists without an
/// order last by name; lists that tie keep their order.
pub fn sort_lists(lists: Vec<SmartList>) -> (r: Vec<SmartList>)
    ensures
        is_list_sort(r@, lists@),
{
    let ghost orig = lists@;
    let mut rest = lists;
    let mut out: Vec<SmartList> = Vec::new();
    let mut i: usize = 0;
    assert(orig.take(0) =~= Seq::<SmartList>::empty());
    assert(orig.skip(0) =~= orig);
    assert(orig.len() == rest.len());
    while rest.len() > 0
        invariant
            orig.len() <= usize::MAX,
            i <= orig.len(),
            rest@ == orig.skip(i as int),
            is_list_sort(out@, orig.take(i as int)),
        decreases rest@.len(),
    {
        let x = rest.remove(0);
        assert(x == orig[i as int]);
        let ghost o = out@;
        let mut p: usize = 0;
        while p < out.len() && compare_lists(&out[p], &x) != Order::Greater
            invariant
                p <= out@.len(),
                o == out@,
                forall|j: int| 0 <= j < p ==> list_order(list_key(#[trigger] o[j]), list_key(x)) != Order::Greater,
            decreases out@.len() - p,
        {
            p = p + 1;
        }
        proof {
            lemma_insert_list(o, orig.take(i as int), x, p as int);
        }
        out.insert(p, x);
        assert(orig.take(i + 1) =~= orig.take(i as int).push(orig[i as int]));
        assert(rest@ =~= orig.skip(i + 1));
        i = i + 1;
    }
    assert(orig.take(i as int) =~= orig);
    out
}

} // verus!
