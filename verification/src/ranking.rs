//! The order a project or context entry shows its tasks in: open tasks
//! before done ones, actionable ones (not starting after today) first, then
//! by priority, by due date, by completion date (latest first), and by the
//! line itself.
use vstd::prelude::*;
use vstd::string::StrSliceExecFns;
use crate::smartlist::{
    compare_directed, directed_key_order, key_bytes, lemma_directed_facts,
    Direction,
};
use crate::task::{
    find_tag, lemma_tag_value_contains, pairs_view, stored_view, tag_value, StoredTask, StoredView,
    Task, TaskView,
};
use crate::text::{
    compare_str, flip, lemma_lex_order_flip, lemma_str_order_equal, str_order, string_of_char, Order,
};

verus! {

/// Whether the task may be worked on: it has no `starting` date after
/// `today`.
pub open spec fn actionable(t: TaskView, today: Seq<char>) -> bool {
    match tag_value(t.tags, "starting"@) {
        Some(s) => str_order(s, today) != Order::Greater,
        None => true,
    }
}

/// The keys tasks are ranked by, first key first: done, not actionable,
/// priority, due date, completion date, the line.
pub open spec fn rank_keys(t: TaskView, today: Seq<char>) -> Seq<Option<Seq<char>>> {
    seq![
        Some(if t.done { "1"@ } else { "0"@ }),
        Some(if actionable(t, today) { "0"@ } else { "1"@ }),
        match t.priority {
            Some(c) => Some(seq![c]),
            None => None,
        },
        tag_value(t.tags, "due"@),
        t.completion_date,
        Some(t.raw),
    ]
}

/// The directions of the keys: the completion date descending, the others
/// ascending. A key with a value comes before a missing one either way.
pub open spec fn rank_dirs() -> Seq<Direction> {
    seq![
        Direction::Asc,
        Direction::Asc,
        Direction::Asc,
        Direction::Asc,
        Direction::Desc,
        Direction::Asc,
    ]
}

/// The order of two key lists: the first key that differs decides.
pub open spec fn keys_order(ka: Seq<Option<Seq<char>>>, kb: Seq<Option<Seq<char>>>, ds: Seq<Direction>) -> Order
    decreases ds.len(),
{
    if ds.len() == 0 || ka.len() == 0 || kb.len() == 0 {
        Order::Equal
    } else {
        let o = directed_key_order(ka[0], kb[0], ds[0]);
        if o != Order::Equal {
            o
        } else {
            keys_order(ka.drop_first(), kb.drop_first(), ds.drop_first())
        }
    }
}

/// The keys as bytes: equal bytes, equal place.
pub open spec fn keys_bytes(k: Seq<Option<Seq<char>>>) -> Seq<Option<Seq<u8>>> {
    k.map_values(|x: Option<Seq<char>>| key_bytes(x))
}

proof fn lemma_keys_order_flip(ka: Seq<Option<Seq<char>>>, kb: Seq<Option<Seq<char>>>, ds: Seq<Direction>)
    ensures
        keys_order(kb, ka, ds) == flip(keys_order(ka, kb, ds)),
    decreases ds.len(),
{
    if ds.len() > 0 && ka.len() > 0 && kb.len() > 0 {
        lemma_directed_facts(ka[0], kb[0], kb[0], ds[0]);
        lemma_keys_order_flip(ka.drop_first(), kb.drop_first(), ds.drop_first());
    }
}

proof fn lemma_keys_order_equal(ka: Seq<Option<Seq<char>>>, kb: Seq<Option<Seq<char>>>, ds: Seq<Direction>)
    requires
        ka.len() == ds.len(),
        kb.len() == ds.len(),
    ensures
        (keys_order(ka, kb, ds) == Order::Equal) == (keys_bytes(ka) == keys_bytes(kb)),
    decreases ds.len(),
{
    if ds.len() > 0 {
        lemma_directed_facts(ka[0], kb[0], kb[0], ds[0]);
        lemma_keys_order_equal(ka.drop_first(), kb.drop_first(), ds.drop_first());
        assert(keys_bytes(ka.drop_first()) =~= keys_bytes(ka).drop_first());
        assert(keys_bytes(kb.drop_first()) =~= keys_bytes(kb).drop_first());
        if keys_bytes(ka) == keys_bytes(kb) {
            assert(keys_bytes(ka)[0] == keys_bytes(kb)[0]);
        }
        if keys_bytes(ka)[0] == keys_bytes(kb)[0] && keys_bytes(ka.drop_first()) == keys_bytes(
            kb.drop_first(),
        ) {
            assert forall|j: int| 0 <= j < ka.len() implies keys_bytes(ka)[j] == keys_bytes(kb)[j] by {
                if j > 0 {
                    assert(keys_bytes(ka)[j] == keys_bytes(ka.drop_first())[j - 1]);
                    assert(keys_bytes(kb)[j] == keys_bytes(kb.drop_first())[j - 1]);
                }
            }
            assert(keys_bytes(ka) =~= keys_bytes(kb));
        }
    } else {
        assert(keys_bytes(ka) =~= keys_bytes(kb));
    }
}

proof fn lemma_keys_order_trans(
    ka: Seq<Option<Seq<char>>>,
    kb: Seq<Option<Seq<char>>>,
    kc: Seq<Option<Seq<char>>>,
    ds: Seq<Direction>,
)
    requires
        ka.len() == ds.len(),
        kb.len() == ds.len(),
        kc.len() == ds.len(),
        keys_order(ka, kb, ds) != Order::Greater,
        keys_order(kb, kc, ds) != Order::Greater,
    ensures
        keys_order(ka, kc, ds) != Order::Greater,
    decreases ds.len(),
{
    if ds.len() > 0 {
        lemma_directed_facts(ka[0], kb[0], kc[0], ds[0]);
        let oab = directed_key_order(ka[0], kb[0], ds[0]);
        let obc = directed_key_order(kb[0], kc[0], ds[0]);
        if oab == Order::Equal && obc == Order::Equal {
            lemma_keys_order_trans(ka.drop_first(), kb.drop_first(), kc.drop_first(), ds.drop_first());
        }
    }
}

proof fn lemma_rank_len(t: TaskView, today: Seq<char>)
    ensures
        rank_keys(t, today).len() == 6,
        rank_dirs().len() == 6,
{
}

/// The rank order of two stored tasks.
pub open spec fn rank_order(a: StoredView, b: StoredView, today: Seq<char>) -> Order {
    keys_order(rank_keys(a.task, today), rank_keys(b.task, today), rank_dirs())
}

/// The keys of a stored task as bytes.
pub open spec fn rank_bytes(x: StoredView, today: Seq<char>) -> Seq<Option<Seq<u8>>> {
    keys_bytes(rank_keys(x.task, today))
}

/// The tasks with the rank keys `k`.
pub open spec fn with_rank(k: Seq<Option<Seq<u8>>>, today: Seq<char>) -> spec_fn(StoredView) -> bool {
    |x: StoredView| rank_bytes(x, today) == k
}

/// `out` is `inp` ranked, tasks of equal keys kept in their order.
pub open spec fn is_ranked(out: Seq<StoredView>, inp: Seq<StoredView>, today: Seq<char>) -> bool {
    &&& out.len() == inp.len()
    &&& forall|i: int, j: int|
        0 <= i < j < out.len() ==> rank_order(out[i], out[j], today) != Order::Greater
    &&& forall|k: Seq<Option<Seq<u8>>>| #[trigger]
        out.filter(with_rank(k, today)) == inp.filter(with_rank(k, today))
}

proof fn lemma_filter_none(s: Seq<StoredView>, p: spec_fn(StoredView) -> bool)
    requires
        forall|i: int| 0 <= i < s.len() ==> !p(#[trigger] s[i]),
    ensures
        s.filter(p) == Seq::<StoredView>::empty(),
{
    assert(s.all(|x: StoredView| !p(x)));
    s.lemma_all_neg_filter_empty(p);
    assert(s.filter(p) =~= Seq::<StoredView>::empty());
}

/// Inserting `x` after the tasks not ranked above it and before the ones
/// ranked above it keeps a ranking stable.
#[verifier::spinoff_prover]
#[verifier::rlimit(40)]
proof fn lemma_insert_ranked(o: Seq<StoredView>, inp: Seq<StoredView>, x: StoredView, p: int, today: Seq<char>)
    requires
        is_ranked(o, inp, today),
        0 <= p <= o.len(),
        forall|j: int| 0 <= j < p ==> rank_order(#[trigger] o[j], x, today) != Order::Greater,
        p < o.len() ==> rank_order(o[p], x, today) == Order::Greater,
    ensures
        is_ranked(o.insert(p, x), inp.push(x), today),
{
    broadcast use Seq::filter_distributes_over_add, Seq::lemma_filter_push;

    let ds = rank_dirs();
    let n = o.insert(p, x);
    assert forall|j: int| p <= j < o.len() implies rank_order(#[trigger] o[j], x, today)
        == Order::Greater by {
        lemma_keys_order_flip(rank_keys(o[p].task, today), rank_keys(x.task, today), ds);
        lemma_rank_len(o[p].task, today);
        lemma_rank_len(o[j].task, today);
        lemma_rank_len(x.task, today);
        if j > p {
            assert(rank_order(o[p], o[j], today) != Order::Greater);
            lemma_keys_order_flip(rank_keys(o[j].task, today), rank_keys(x.task, today), ds);
            lemma_keys_order_equal(rank_keys(o[j].task, today), rank_keys(x.task, today), ds);
            lemma_keys_order_equal(rank_keys(o[p].task, today), rank_keys(x.task, today), ds);
            if rank_order(o[j], x, today) != Order::Greater {
                lemma_keys_order_trans(
                    rank_keys(o[p].task, today),
                    rank_keys(o[j].task, today),
                    rank_keys(x.task, today),
                    ds,
                );
            }
        }
    }
    assert forall|i: int, j: int| 0 <= i < j < n.len() implies rank_order(n[i], n[j], today)
        != Order::Greater by {
        if j < p {
            assert(n[i] == o[i] && n[j] == o[j]);
        } else if j == p {
            assert(n[i] == o[i] && n[j] == x);
        } else if i < p {
            assert(n[i] == o[i] && n[j] == o[j - 1]);
        } else if i == p {
            assert(n[i] == x && n[j] == o[j - 1]);
            lemma_keys_order_flip(rank_keys(o[j - 1].task, today), rank_keys(x.task, today), ds);
        } else {
            assert(n[i] == o[i - 1] && n[j] == o[j - 1]);
        }
    }
    let pre = o.subrange(0, p);
    let post = o.subrange(p, o.len() as int);
    assert(o =~= pre + post);
    assert(n =~= pre + seq![x] + post);
    assert forall|k: Seq<Option<Seq<u8>>>| #[trigger]
        n.filter(with_rank(k, today)) == inp.push(x).filter(with_rank(k, today)) by {
        let w = with_rank(k, today);
        assert(o.filter(w) == inp.filter(w));
        assert(o.filter(w) == pre.filter(w) + post.filter(w));
        assert(n.filter(w) == (pre + seq![x]).filter(w) + post.filter(w));
        assert(seq![x] =~= Seq::<StoredView>::empty().push(x));
        assert((pre + seq![x]) =~= pre.push(x));
        if w(x) {
            assert forall|i: int| 0 <= i < post.len() implies !w(#[trigger] post[i]) by {
                assert(post[i] == o[p + i]);
                lemma_rank_len(o[p + i].task, today);
                lemma_rank_len(x.task, today);
                lemma_keys_order_equal(rank_keys(o[p + i].task, today), rank_keys(x.task, today), ds);
            }
            lemma_filter_none(post, w);
            assert(n.filter(w) =~= pre.filter(w).push(x));
            assert(o.filter(w) =~= pre.filter(w));
        } else {
            assert(n.filter(w) =~= pre.filter(w) + post.filter(w));
        }
    }
}

fn bytes_of(s: &str) -> (r: Option<Vec<u8>>)
    ensures
        r matches Some(v) && v@ == vstd::utf8::encode_utf8(s@),
{
    Some(s.as_bytes_vec())
}

fn flag(set: bool) -> (r: Option<Vec<u8>>)
    ensures
        r matches Some(v) && v@ == vstd::utf8::encode_utf8(if set { "1"@ } else { "0"@ }),
{
    if set {
        bytes_of("1")
    } else {
        bytes_of("0")
    }
}

fn opt_bytes(s: Option<&String>) -> (r: Option<Vec<u8>>)
    ensures
        match s {
            Some(t) => r matches Some(v) && v@ == vstd::utf8::encode_utf8(t@),
            None => r is None,
        },
{
    match s {
        Some(t) => bytes_of(t.as_str()),
        None => None,
    }
}

/// Whether the task is actionable on `today`.
fn is_actionable(task: &Task, today: &str) -> (r: bool)
    ensures
        r == actionable(task@, today@),
{
    match find_tag(&task.tags, "starting") {
        Some(s) => compare_str(s.as_str(), today) != Order::Greater,
        None => true,
    }
}

spec fn same_bytes(r: Option<Vec<u8>>, k: Option<Seq<char>>) -> bool {
    match r {
        Some(v) => key_bytes(k) == Some(v@),
        None => key_bytes(k) is None,
    }
}

/// The rank keys of a task, as bytes.
fn rank_key_list(task: &Task, today: &str) -> (r: Vec<Option<Vec<u8>>>)
    ensures
        r@.len() == 6,
        forall|i: int| 0 <= i < 6 ==> same_bytes(#[trigger] r@[i], rank_keys(task@, today@)[i]),
{
    let mut r: Vec<Option<Vec<u8>>> = Vec::new();
    r.push(flag(task.done));
    r.push(flag(!is_actionable(task, today)));
    r.push(
        match task.priority {
            Some(c) => bytes_of(string_of_char(c).as_str()),
            None => None,
        },
    );
    r.push(opt_bytes(find_tag(&task.tags, "due")));
    r.push(opt_bytes(task.completion_date.as_ref()));
    r.push(bytes_of(task.raw.as_str()));
    proof {
        reveal_strlit("1");
        reveal_strlit("0");
        let ks = rank_keys(task@, today@);
        assert(same_bytes(r@[0], ks[0]));
        assert(same_bytes(r@[1], ks[1]));
        assert(same_bytes(r@[2], ks[2]));
        assert(same_bytes(r@[3], ks[3]));
        assert(same_bytes(r@[4], ks[4]));
        assert(same_bytes(r@[5], ks[5]));
    }
    r
}

/// Compares two tasks by rank.
fn compare_ranked(a: &Task, b: &Task, today: &str) -> (r: Order)
    ensures
        r == keys_order(rank_keys(a@, today@), rank_keys(b@, today@), rank_dirs()),
{
    let ka = rank_key_list(a, today);
    let kb = rank_key_list(b, today);
    let ghost sa = rank_keys(a@, today@);
    let ghost sb = rank_keys(b@, today@);
    let ghost ds = rank_dirs();
    let dirs = [
        Direction::Asc,
        Direction::Asc,
        Direction::Asc,
        Direction::Asc,
        Direction::Desc,
        Direction::Asc,
    ];
    assert(dirs@ =~= ds);
    let mut i: usize = 0;
    assert(sa.skip(0) =~= sa && sb.skip(0) =~= sb && ds.skip(0) =~= ds);
    while i < 6
        invariant
            i <= 6,
            ka@.len() == 6,
            kb@.len() == 6,
            sa.len() == 6 && sb.len() == 6 && ds.len() == 6,
            sa == rank_keys(a@, today@),
            sb == rank_keys(b@, today@),
            ds == rank_dirs(),
            dirs@ == ds,
            forall|j: int| 0 <= j < 6 ==> same_bytes(#[trigger] ka@[j], sa[j]),
            forall|j: int| 0 <= j < 6 ==> same_bytes(#[trigger] kb@[j], sb[j]),
            keys_order(sa, sb, ds) == keys_order(sa.skip(i as int), sb.skip(i as int), ds.skip(i as int)),
        decreases 6 - i,
    {
        assert(same_bytes(ka@[i as int], sa[i as int]));
        assert(same_bytes(kb@[i as int], sb[i as int]));
        let d = dirs[i];
        assert(d == ds[i as int]);
        let o = compare_directed(&ka[i], &kb[i], d);
        assert(directed_key_order(sa[i as int], sb[i as int], ds[i as int]) == o);
        assert(sa.skip(i as int)[0] == sa[i as int]);
        assert(sb.skip(i as int)[0] == sb[i as int]);
        assert(ds.skip(i as int)[0] == ds[i as int]);
        assert(keys_order(sa.skip(i as int), sb.skip(i as int), ds.skip(i as int)) == (if directed_key_order(
            sa[i as int],
            sb[i as int],
            ds[i as int],
        ) != Order::Equal {
            directed_key_order(sa[i as int], sb[i as int], ds[i as int])
        } else {
            keys_order(
                sa.skip(i as int).drop_first(),
                sb.skip(i as int).drop_first(),
                ds.skip(i as int).drop_first(),
            )
        }));
        if o != Order::Equal {
            return o;
        }
        assert(sa.skip(i as int).drop_first() =~= sa.skip(i + 1));
        assert(sb.skip(i as int).drop_first() =~= sb.skip(i + 1));
        assert(ds.skip(i as int).drop_first() =~= ds.skip(i + 1));
        i = i + 1;
    }
    Order::Equal
}

/// The tasks ranked (see the module), tasks of equal keys kept in their
/// order.
pub fn rank_tasks(tasks: &[StoredTask], today: &str) -> (r: Vec<StoredTask>)
    ensures
        is_ranked(stored_view(r@), stored_view(tasks@), today@),
{
    let mut out: Vec<StoredTask> = Vec::new();
    let mut i: usize = 0;
    assert(stored_view(tasks@.take(0)) =~= Seq::<StoredView>::empty());
    assert(stored_view(out@) =~= Seq::<StoredView>::empty());
    while i < tasks.len()
        invariant
            i <= tasks@.len(),
            is_ranked(stored_view(out@), stored_view(tasks@.take(i as int)), today@),
        decreases tasks@.len() - i,
    {
        let x = &tasks[i];
        let ghost o = stored_view(out@);
        let mut p: usize = 0;
        while p < out.len() && compare_ranked(&out[p].task, &x.task, today) != Order::Greater
            invariant
                p <= out@.len(),
                o == stored_view(out@),
                forall|j: int|
                    0 <= j < p ==> rank_order(#[trigger] o[j], x@, today@) != Order::Greater,
            decreases out@.len() - p,
        {
            p = p + 1;
        }
        proof {
            lemma_insert_ranked(o, stored_view(tasks@.take(i as int)), x@, p as int, today@);
        }
        out.insert(p, x.duplicate());
        assert(stored_view(out@) =~= o.insert(p as int, x@));
        assert(stored_view(tasks@.take(i + 1)) =~= stored_view(tasks@.take(i as int)).push(x@));
        i = i + 1;
    }
    assert(tasks@.take(tasks@.len() as int) =~= tasks@);
    out
}

// ── Laws of the ranking ─────────────────────────────────────────────────────

/// `"0"` sorts before `"1"`.
proof fn lemma_flag_order()
    ensures
        str_order("0"@, "1"@) == Order::Less,
        str_order("1"@, "0"@) == Order::Greater,
        str_order("0"@, "0"@) == Order::Equal,
        str_order("1"@, "1"@) == Order::Equal,
{
    reveal_strlit("0");
    reveal_strlit("1");
    vstd::utf8::is_ascii_chars_encode_utf8("0"@);
    vstd::utf8::is_ascii_chars_encode_utf8("1"@);
    let a = vstd::utf8::encode_utf8("0"@);
    let b = vstd::utf8::encode_utf8("1"@);
    assert(a.len() == 1 && b.len() == 1 && a[0] == 48 && b[0] == 49);
    assert(a.drop_first().len() == 0 && b.drop_first().len() == 0);
    lemma_lex_order_flip(a, b);
    lemma_str_order_equal("0"@, "0"@);
    lemma_str_order_equal("1"@, "1"@);
}

/// The first keys of two ranked tasks, when equal, leave the order to the
/// rest.
proof fn lemma_keys_order_step(ka: Seq<Option<Seq<char>>>, kb: Seq<Option<Seq<char>>>, ds: Seq<Direction>)
    requires
        ds.len() > 0,
        ka.len() > 0,
        kb.len() > 0,
    ensures
        directed_key_order(ka[0], kb[0], ds[0]) != Order::Equal ==> keys_order(ka, kb, ds)
            == directed_key_order(ka[0], kb[0], ds[0]),
        directed_key_order(ka[0], kb[0], ds[0]) == Order::Equal ==> keys_order(ka, kb, ds)
            == keys_order(ka.drop_first(), kb.drop_first(), ds.drop_first()),
{
}

/// Whether the task starts after `today`: it has a `starting` tag whose
/// date sorts after `today`.
pub open spec fn starts_later(t: TaskView, today: Seq<char>) -> bool {
    exists|v: Seq<char>| t.tags.contains(("starting"@, v)) && str_order(v, today) == Order::Greater
}

proof fn lemma_actionable_tags(t: TaskView, today: Seq<char>)
    requires
        t.well_formed(),
    ensures
        actionable(t, today) <==> !starts_later(t, today),
{
    match tag_value(t.tags, "starting"@) {
        Some(v) => {
            lemma_tag_value_contains(t.tags, "starting"@, v);
            if starts_later(t, today) {
                let w = choose|w: Seq<char>|
                    t.tags.contains(("starting"@, w)) && str_order(w, today) == Order::Greater;
                lemma_tag_value_contains(t.tags, "starting"@, w);
            }
        },
        None => {
            if starts_later(t, today) {
                let w = choose|w: Seq<char>|
                    t.tags.contains(("starting"@, w)) && str_order(w, today) == Order::Greater;
                lemma_tag_value_contains(t.tags, "starting"@, w);
            }
        },
    }
}

/// In a ranking, open tasks come before done ones.
pub proof fn law_rank_open_first(out: Seq<StoredView>, inp: Seq<StoredView>, today: Seq<char>, i: int, j: int)
    requires
        is_ranked(out, inp, today),
        0 <= i < j < out.len(),
        out[i].task.done,
    ensures
        out[j].task.done,
{
    lemma_flag_order();
    let ka = rank_keys(out[i].task, today);
    let kb = rank_keys(out[j].task, today);
    assert(rank_order(out[i], out[j], today) != Order::Greater);
    lemma_keys_order_step(ka, kb, rank_dirs());
}

/// In a ranking, open tasks that start after `today` come after every open
/// task that can be started by `today` (no `starting` date, or one on or
/// before `today`).
pub proof fn law_rank_startable_first(
    out: Seq<StoredView>,
    inp: Seq<StoredView>,
    today: Seq<char>,
    i: int,
    j: int,
)
    requires
        is_ranked(out, inp, today),
        0 <= i < j < out.len(),
        !out[i].task.done,
        !out[j].task.done,
        out[i].task.well_formed(),
        out[j].task.well_formed(),
        starts_later(out[i].task, today),
    ensures
        starts_later(out[j].task, today),
{
    lemma_flag_order();
    lemma_actionable_tags(out[i].task, today);
    lemma_actionable_tags(out[j].task, today);
    let ka = rank_keys(out[i].task, today);
    let kb = rank_keys(out[j].task, today);
    let ds = rank_dirs();
    assert(rank_order(out[i], out[j], today) != Order::Greater);
    lemma_keys_order_step(ka, kb, ds);
    lemma_keys_order_step(ka.drop_first(), kb.drop_first(), ds.drop_first());
}

/// In a ranking, among open tasks that can be started by `today`, those
/// with a priority come first, in the order of their priority letters: a
/// task starting today ranks with the others by its priority.
pub proof fn law_rank_priority_among_startable(
    out: Seq<StoredView>,
    inp: Seq<StoredView>,
    today: Seq<char>,
    i: int,
    j: int,
)
    requires
        is_ranked(out, inp, today),
        0 <= i < j < out.len(),
        !out[i].task.done,
        !out[j].task.done,
        out[i].task.well_formed(),
        out[j].task.well_formed(),
        !starts_later(out[i].task, today),
        !starts_later(out[j].task, today),
    ensures
        out[j].task.priority matches Some(q) ==> (out[i].task.priority matches Some(p) && str_order(
            seq![p],
            seq![q],
        ) != Order::Greater),
{
    lemma_flag_order();
    lemma_actionable_tags(out[i].task, today);
    lemma_actionable_tags(out[j].task, today);
    let ka = rank_keys(out[i].task, today);
    let kb = rank_keys(out[j].task, today);
    let ds = rank_dirs();
    assert(rank_order(out[i], out[j], today) != Order::Greater);
    lemma_keys_order_step(ka, kb, ds);
    lemma_keys_order_step(ka.drop_first(), kb.drop_first(), ds.drop_first());
    lemma_keys_order_step(
        ka.drop_first().drop_first(),
        kb.drop_first().drop_first(),
        ds.drop_first().drop_first(),
    );
}

/// In a ranking, among open tasks that can be started by `today` and have
/// the same priority, those with a `due` date come first, earlier dates
/// before later ones.
pub proof fn law_rank_due_within_priority(
    out: Seq<StoredView>,
    inp: Seq<StoredView>,
    today: Seq<char>,
    i: int,
    j: int,
    vj: Seq<char>,
)
    requires
        is_ranked(out, inp, today),
        0 <= i < j < out.len(),
        !out[i].task.done,
        !out[j].task.done,
        out[i].task.well_formed(),
        out[j].task.well_formed(),
        !starts_later(out[i].task, today),
        !starts_later(out[j].task, today),
        out[i].task.priority == out[j].task.priority,
        out[j].task.tags.contains(("due"@, vj)),
    ensures
        exists|vi: Seq<char>| #[trigger]
            out[i].task.tags.contains(("due"@, vi)) && str_order(vi, vj) != Order::Greater,
{
    lemma_flag_order();
    lemma_actionable_tags(out[i].task, today);
    lemma_actionable_tags(out[j].task, today);
    lemma_tag_value_contains(out[j].task.tags, "due"@, vj);
    let ka = rank_keys(out[i].task, today);
    let kb = rank_keys(out[j].task, today);
    let ds = rank_dirs();
    if let Some(p) = out[i].task.priority {
        lemma_str_order_equal(seq![p], seq![p]);
    }
    assert(rank_order(out[i], out[j], today) != Order::Greater);
    lemma_keys_order_step(ka, kb, ds);
    lemma_keys_order_step(ka.drop_first(), kb.drop_first(), ds.drop_first());
    lemma_keys_order_step(
        ka.drop_first().drop_first(),
        kb.drop_first().drop_first(),
        ds.drop_first().drop_first(),
    );
    lemma_keys_order_step(
        ka.drop_first().drop_first().drop_first(),
        kb.drop_first().drop_first().drop_first(),
        ds.drop_first().drop_first().drop_first(),
    );
    if let Some(vi) = tag_value(out[i].task.tags, "due"@) {
        lemma_tag_value_contains(out[i].task.tags, "due"@, vi);
        assert(out[i].task.tags.contains(("due"@, vi)) && str_order(vi, vj) != Order::Greater);
    }
}

} // verus!
