//! Reading a todo.txt line into a task: `x` and the completion date of a
//! done task, the `(A)` priority, the creation date, then the description,
//! whose `+project`, `@context` and `key:value` words are collected.
use vstd::prelude::*;
use crate::task::{keys_unique, opt_view, pairs_view, strings_view, Task, TaskView};
use crate::text::{
    chars_of, find_char, first_index, is_digit, is_lit, is_whitespace, is_ws, lemma_first_index,
    slice_range, string_of, strs,
};

verus! {

/// The end of the word that starts at `i`: the next whitespace or the end.
pub open spec fn word_end(s: Seq<char>, i: int) -> int
    decreases s.len() - i,
{
    if i >= s.len() || is_ws(s[i]) {
        i
    } else {
        word_end(s, i + 1)
    }
}

pub proof fn lemma_word_end(s: Seq<char>, i: int)
    requires
        0 <= i <= s.len(),
    ensures
        i <= word_end(s, i) <= s.len(),
        i < s.len() && !is_ws(s[i]) ==> word_end(s, i) > i,
        forall|k: int| i <= k < word_end(s, i) ==> !is_ws(#[trigger] s[k]),
        word_end(s, i) < s.len() ==> is_ws(s[word_end(s, i)]),
    decreases s.len() - i,
{
    if i < s.len() && !is_ws(s[i]) {
        lemma_word_end(s, i + 1);
    }
}

/// The words of `s` from position `i` on: the runs of characters between
/// whitespace.
pub open spec fn words_from(s: Seq<char>, i: int) -> Seq<Seq<char>>
    decreases s.len() - i,
{
    if i < 0 || i >= s.len() {
        Seq::empty()
    } else if is_ws(s[i]) {
        words_from(s, i + 1)
    } else {
        proof {
            lemma_word_end(s, i);
        }
        seq![s.subrange(i, word_end(s, i))] + words_from(s, word_end(s, i))
    }
}

/// The words of `s`, as `str::split_whitespace` gives them.
pub open spec fn words(s: Seq<char>) -> Seq<Seq<char>> {
    words_from(s, 0)
}

/// The words of the text.
fn split_words(s: &[char]) -> (r: Vec<Vec<char>>)
    ensures
        r@.map_values(|w: Vec<char>| w@) == words(s@),
{
    let mut out: Vec<Vec<char>> = Vec::new();
    let mut i: usize = 0;
    while i < s.len()
        invariant
            i <= s@.len(),
            words(s@) == out@.map_values(|w: Vec<char>| w@) + words_from(s@, i as int),
        decreases s@.len() - i,
    {
        if is_whitespace(s[i]) {
            i = i + 1;
        } else {
            proof {
                lemma_word_end(s@, i as int);
            }
            let mut e = i;
            while e < s.len() && !is_whitespace(s[e])
                invariant
                    i <= e <= s@.len(),
                    word_end(s@, i as int) == word_end(s@, e as int),
                decreases s@.len() - e,
            {
                e = e + 1;
            }
            let word = slice_range(s, i, e);
            let ghost before = out@.map_values(|w: Vec<char>| w@);
            out.push(vstd::slice::slice_to_vec(word));
            assert(out@.map_values(|w: Vec<char>| w@) =~= before.push(s@.subrange(i as int, e as int)));
            assert(before.push(s@.subrange(i as int, e as int)) + words_from(s@, e as int) =~= before
                + (seq![s@.subrange(i as int, e as int)] + words_from(s@, e as int)));
            i = e;
        }
    }
    assert(out@.map_values(|w: Vec<char>| w@) + words_from(s@, i as int) =~= out@.map_values(
        |w: Vec<char>| w@,
    ));
    out
}

/// A date word: `YYYY-MM-DD` in digits.
pub open spec fn is_date_word(w: Seq<char>) -> bool {
    &&& w.len() == 10
    &&& w[4] == '-'
    &&& w[7] == '-'
    &&& forall|i: int| 0 <= i < 10 && i != 4 && i != 7 ==> is_digit(#[trigger] w[i])
}

/// A priority word: `(A)` to `(Z)`.
pub open spec fn is_priority_word(w: Seq<char>) -> bool {
    w.len() == 3 && w[0] == '(' && w[2] == ')' && 'A' <= w[1] && w[1] <= 'Z'
}

/// The words with the first one dropped when `drop`.
pub open spec fn after(ws: Seq<Seq<char>>, drop: bool) -> Seq<Seq<char>> {
    if drop {
        ws.drop_first()
    } else {
        ws
    }
}

/// The leading parts of a line's words: whether it is done (`x`), its
/// completion date (only after `x`), its priority, its creation date, and
/// the words of the description.
pub open spec fn line_parts(ws: Seq<Seq<char>>) -> (bool, Option<Seq<char>>, Option<char>, Option<Seq<char>>, Seq<Seq<char>>) {
    let done = ws.len() > 0 && ws[0] == "x"@;
    let w1 = after(ws, done);
    let completion = if done && w1.len() > 0 && is_date_word(w1[0]) {
        Some(w1[0])
    } else {
        None
    };
    let w2 = after(w1, completion is Some);
    let priority = if w2.len() > 0 && is_priority_word(w2[0]) {
        Some(w2[0][1])
    } else {
        None
    };
    let w3 = after(w2, priority is Some);
    let creation = if w3.len() > 0 && is_date_word(w3[0]) {
        Some(w3[0])
    } else {
        None
    };
    (done, completion, priority, creation, after(w3, creation is Some))
}

/// The words joined by single spaces.
pub open spec fn joined(ws: Seq<Seq<char>>) -> Seq<char>
    decreases ws.len(),
{
    if ws.len() == 0 {
        Seq::empty()
    } else if ws.len() == 1 {
        ws[0]
    } else {
        joined(ws.drop_last()) + seq![' '] + ws.last()
    }
}

/// Whether the word is `c` followed by at least one character.
pub open spec fn marked(w: Seq<char>, c: char) -> bool {
    w.len() > 1 && w[0] == c
}

/// The words marked with `c`, without the mark, in order.
pub open spec fn marked_words(ws: Seq<Seq<char>>, c: char) -> Seq<Seq<char>>
    decreases ws.len(),
{
    if ws.len() == 0 {
        Seq::empty()
    } else {
        marked_words(ws.drop_last(), c) + if marked(ws.last(), c) {
            seq![ws.last().drop_first()]
        } else {
            Seq::empty()
        }
    }
}

/// The `key:value` a word holds: split at its first `:`, both sides not
/// empty, the value not starting with `/`; project and context words hold
/// none.
pub open spec fn tag_pair(w: Seq<char>) -> Option<(Seq<char>, Seq<char>)> {
    let p = first_index(w, ':');
    if marked(w, '+') || marked(w, '@') || p >= w.len() {
        None
    } else {
        let k = w.subrange(0, p);
        let v = w.subrange(p + 1, w.len() as int);
        if k.len() > 0 && v.len() > 0 && v[0] != '/' {
            Some((k, v))
        } else {
            None
        }
    }
}

/// The index of the first tag named `k`.
pub open spec fn key_index(t: Seq<(Seq<char>, Seq<char>)>, k: Seq<char>) -> Option<int>
    decreases t.len(),
{
    if t.len() == 0 {
        None
    } else if t[0].0 == k {
        Some(0)
    } else {
        match key_index(t.drop_first(), k) {
            Some(i) => Some(i + 1),
            None => None,
        }
    }
}

/// The tags with `k` set to `v`: in place when `k` is there, else added.
pub open spec fn upsert(t: Seq<(Seq<char>, Seq<char>)>, k: Seq<char>, v: Seq<char>) -> Seq<(Seq<char>, Seq<char>)> {
    match key_index(t, k) {
        Some(i) => t.update(i, (k, v)),
        None => t.push((k, v)),
    }
}

/// The tags of the words, a later value of a key replacing an earlier one.
pub open spec fn tags_of(ws: Seq<Seq<char>>) -> Seq<(Seq<char>, Seq<char>)>
    decreases ws.len(),
{
    if ws.len() == 0 {
        Seq::empty()
    } else {
        match tag_pair(ws.last()) {
            Some(kv) => upsert(tags_of(ws.drop_last()), kv.0, kv.1),
            None => tags_of(ws.drop_last()),
        }
    }
}

proof fn lemma_key_index(t: Seq<(Seq<char>, Seq<char>)>, k: Seq<char>)
    ensures
        key_index(t, k) matches Some(i) ==> 0 <= i < t.len() && t[i].0 == k,
        key_index(t, k) is None ==> forall|j: int| 0 <= j < t.len() ==> (#[trigger] t[j]).0 != k,
    decreases t.len(),
{
    if t.len() > 0 {
        lemma_key_index(t.drop_first(), k);
        assert forall|j: int| 1 <= j < t.len() implies t[j] == t.drop_first()[j - 1] by {}
    }
}

/// Setting a tag keeps each key once.
proof fn lemma_upsert_unique(t: Seq<(Seq<char>, Seq<char>)>, k: Seq<char>, v: Seq<char>)
    requires
        keys_unique(t),
    ensures
        keys_unique(upsert(t, k, v)),
{
    lemma_key_index(t, k);
}

/// The tags of a line hold each key once.
proof fn lemma_tags_unique(ws: Seq<Seq<char>>)
    ensures
        keys_unique(tags_of(ws)),
    decreases ws.len(),
{
    if ws.len() > 0 {
        lemma_tags_unique(ws.drop_last());
        if let Some(kv) = tag_pair(ws.last()) {
            lemma_upsert_unique(tags_of(ws.drop_last()), kv.0, kv.1);
        }
    }
}

/// The task a todo.txt line holds.
pub open spec fn line_task(raw: Seq<char>) -> TaskView {
    let (done, completion, priority, creation, rest) = line_parts(words(raw));
    TaskView {
        raw,
        done,
        priority,
        completion_date: completion,
        creation_date: creation,
        description: joined(rest),
        projects: marked_words(rest, '+'),
        contexts: marked_words(rest, '@'),
        tags: tags_of(rest),
    }
}

/// The words as character sequences.
pub open spec fn words_view(ws: Seq<Vec<char>>) -> Seq<Seq<char>> {
    ws.map_values(|w: Vec<char>| w@)
}

fn is_date_word_of(w: &[char]) -> (r: bool)
    ensures
        r == is_date_word(w@),
{
    if w.len() != 10 || w[4] != '-' || w[7] != '-' {
        return false;
    }
    let mut i: usize = 0;
    while i < 10
        invariant
            i <= 10,
            w@.len() == 10,
            forall|j: int| 0 <= j < i && j != 4 && j != 7 ==> is_digit(#[trigger] w@[j]),
        decreases 10 - i,
    {
        if i != 4 && i != 7 && !('0' <= w[i] && w[i] <= '9') {
            return false;
        }
        i = i + 1;
    }
    true
}

fn is_priority_word_of(w: &[char]) -> (r: bool)
    ensures
        r == is_priority_word(w@),
{
    w.len() == 3 && w[0] == '(' && w[2] == ')' && 'A' <= w[1] && w[1] <= 'Z'
}

/// The words joined by single spaces.
fn join_words(ws: &[Vec<char>]) -> (r: String)
    ensures
        r@ == joined(words_view(ws@)),
{
    let ghost wv = words_view(ws@);
    let mut out: Vec<char> = Vec::new();
    let mut k: usize = 0;
    assert(wv.take(0) =~= Seq::<Seq<char>>::empty());
    while k < ws.len()
        invariant
            k <= ws@.len(),
            wv == words_view(ws@),
            out@ == joined(wv.take(k as int)),
        decreases ws@.len() - k,
    {
        let w = &ws[k];
        let ghost before = out@;
        if k > 0 {
            out.push(' ');
        }
        let mut j: usize = 0;
        let ghost mid = out@;
        while j < w.len()
            invariant
                j <= w@.len(),
                out@ == mid + w@.take(j as int),
            decreases w@.len() - j,
        {
            out.push(w[j]);
            assert(mid + w@.take(j + 1) =~= (mid + w@.take(j as int)).push(w@[j as int]));
            j = j + 1;
        }
        assert(w@.take(w@.len() as int) =~= w@);
        assert(wv[k as int] == w@);
        assert(wv.take(k + 1).drop_last() =~= wv.take(k as int));
        if k > 0 {
            assert(out@ =~= joined(wv.take(k as int)) + seq![' '] + wv[k as int]);
        } else {
            assert(out@ =~= wv[0]);
        }
        k = k + 1;
    }
    assert(wv.take(ws@.len() as int) =~= wv);
    string_of(out.as_slice())
}

/// The words marked with `c`, without the mark.
fn marked_of(ws: &[Vec<char>], c: char) -> (r: Vec<String>)
    ensures
        strs(r@) == marked_words(words_view(ws@), c),
{
    let ghost wv = words_view(ws@);
    let mut out: Vec<String> = Vec::new();
    let mut k: usize = 0;
    assert(wv.take(0) =~= Seq::<Seq<char>>::empty());
    assert(strs(out@) =~= Seq::<Seq<char>>::empty());
    while k < ws.len()
        invariant
            k <= ws@.len(),
            wv == words_view(ws@),
            strs(out@) == marked_words(wv.take(k as int), c),
        decreases ws@.len() - k,
    {
        let w = &ws[k];
        assert(wv[k as int] == w@);
        assert(wv.take(k + 1).drop_last() =~= wv.take(k as int));
        assert(wv.take(k + 1).last() == w@);
        if w.len() > 1 && w[0] == c {
            let rest = slice_range(w.as_slice(), 1, w.len());
            let ghost before = strs(out@);
            out.push(string_of(rest));
            assert(rest@ =~= w@.drop_first());
            assert(strs(out@) =~= before + seq![w@.drop_first()]);
        } else {
            assert(marked_words(wv.take(k + 1), c) =~= marked_words(wv.take(k as int), c));
        }
        k = k + 1;
    }
    assert(wv.take(ws@.len() as int) =~= wv);
    out
}

/// The `key:value` of a word.
fn tag_pair_of(w: &[char]) -> (r: Option<(Vec<char>, Vec<char>)>)
    ensures
        match r {
            Some(kv) => tag_pair(w@) == Some((kv.0@, kv.1@)),
            None => tag_pair(w@) is None,
        },
{
    if (w.len() > 1 && w[0] == '+') || (w.len() > 1 && w[0] == '@') {
        return None;
    }
    let p = find_char(w, ':');
    proof {
        lemma_first_index(w@, ':');
    }
    if p >= w.len() {
        return None;
    }
    let k = slice_range(w, 0, p);
    let v = slice_range(w, p + 1, w.len());
    if k.len() > 0 && v.len() > 0 && v[0] != '/' {
        Some((vstd::slice::slice_to_vec(k), vstd::slice::slice_to_vec(v)))
    } else {
        None
    }
}

/// The tags with `k` set to `v`.
fn upsert_tag(tags: &mut Vec<(String, String)>, k: &[char], v: &[char])
    ensures
        pairs_view(final(tags)@) == upsert(pairs_view(old(tags)@), k@, v@),
{
    let ghost t = pairs_view(tags@);
    let mut i: usize = 0;
    assert(t.skip(0) =~= t);
    assert(t == pairs_view(old(tags)@));
    while i < tags.len()
        invariant
            i <= tags@.len(),
            t == pairs_view(tags@),
            t == pairs_view(old(tags)@),
            key_index(t, k@) == match key_index(t.skip(i as int), k@) {
                Some(j) => Some(j + i),
                None => None::<int>,
            },
        decreases tags@.len() - i,
    {
        let key = chars_of(tags[i].0.as_str());
        assert(t.skip(i as int)[0] == t[i as int]);
        if crate::text::chars_eq(key.as_slice(), k) {
            assert(key_index(t.skip(i as int), k@) == Some(0int));
            let ghost old_tags = tags@;
            let pair = (string_of(k), string_of(v));
            tags.set(i, pair);
            assert(pairs_view(tags@) =~= t.update(i as int, (k@, v@)));
            assert(key_index(t, k@) == Some(i as int));
            assert(upsert(t, k@, v@) == t.update(i as int, (k@, v@)));
            assert(t == pairs_view(old(tags)@));
            return;
        }
        assert(t.skip(i as int).drop_first() =~= t.skip(i + 1));
        i = i + 1;
    }
    assert(t.skip(i as int) =~= Seq::<(Seq<char>, Seq<char>)>::empty());
    tags.push((string_of(k), string_of(v)));
    assert(pairs_view(tags@) =~= t.push((k@, v@)));
}

/// The tags of the words.
fn tags_from(ws: &[Vec<char>]) -> (r: Vec<(String, String)>)
    ensures
        pairs_view(r@) == tags_of(words_view(ws@)),
{
    let ghost wv = words_view(ws@);
    let mut out: Vec<(String, String)> = Vec::new();
    let mut k: usize = 0;
    assert(wv.take(0) =~= Seq::<Seq<char>>::empty());
    assert(pairs_view(out@) =~= Seq::<(Seq<char>, Seq<char>)>::empty());
    while k < ws.len()
        invariant
            k <= ws@.len(),
            wv == words_view(ws@),
            pairs_view(out@) == tags_of(wv.take(k as int)),
        decreases ws@.len() - k,
    {
        let w = &ws[k];
        assert(wv[k as int] == w@);
        assert(wv.take(k + 1).drop_last() =~= wv.take(k as int));
        assert(wv.take(k + 1).last() == w@);
        match tag_pair_of(w.as_slice()) {
            Some(kv) => {
                upsert_tag(&mut out, kv.0.as_slice(), kv.1.as_slice());
            },
            None => {},
        }
        k = k + 1;
    }
    assert(wv.take(ws@.len() as int) =~= wv);
    out
}

/// The task the todo.txt line `raw` holds.
pub fn parse_task_line(raw: &str) -> (r: Task)
    ensures
        r@ == line_task(raw@),
        r@.well_formed(),
{
    proof {
        lemma_tags_unique(line_parts(words(raw@)).4);
    }
    let cs = chars_of(raw);
    let ws = split_words(cs.as_slice());
    let ghost wv = words_view(ws@);
    assert(wv == words(raw@));
    let n = ws.len();
    let mut start: usize = 0;
    let done = n > 0 && is_lit(ws[0].as_slice(), "x");
    proof {
        reveal_strlit("x");
    }
    if done {
        start = 1;
    }
    assert(wv.skip(start as int) == after(wv, done));
    let mut completion_date: Option<String> = None;
    if done && start < n && is_date_word_of(ws[start].as_slice()) {
        completion_date = Some(string_of(ws[start].as_slice()));
        start = start + 1;
    }
    let ghost w2 = wv.skip(start as int);
    let mut priority: Option<char> = None;
    if start < n && is_priority_word_of(ws[start].as_slice()) {
        priority = Some(ws[start][1]);
        start = start + 1;
    }
    let mut creation_date: Option<String> = None;
    if start < n && is_date_word_of(ws[start].as_slice()) {
        creation_date = Some(string_of(ws[start].as_slice()));
        start = start + 1;
    }
    let rest = &ws.as_slice()[start..n];
    assert(words_view(rest@) =~= wv.skip(start as int));
    let ghost parts = line_parts(wv);
    assert(wv.skip(start as int) =~= parts.4);
    Task {
        raw: raw.to_string(),
        done,
        priority,
        completion_date,
        creation_date,
        description: join_words(rest),
        projects: marked_of(rest, '+'),
        contexts: marked_of(rest, '@'),
        tags: tags_from(rest),
    }
}

/// The line a task gets when it is marked done on `today`.
pub open spec fn done_text(line: Seq<char>, today: Seq<char>) -> Seq<char> {
    "x "@ + today + " "@ + line
}

/// The line a task marked done on `today` gets.
pub fn done_line(line: &str, today: &str) -> (r: String)
    ensures
        r@ == done_text(line@, today@),
{
    let mut out = "x ".to_string();
    out.append(today);
    out.append(" ");
    out.append(line);
    proof {
        reveal_strlit("x ");
        reveal_strlit(" ");
    }
    assert(out@ =~= done_text(line@, today@));
    out
}

/// The line of a done task made open again: without the leading `x ` and,
/// when the next word is a date, without that date and its space.
pub open spec fn restored_text(line: Seq<char>) -> Seq<char> {
    let r1 = if line.len() >= 2 && line[0] == 'x' && line[1] == ' ' {
        line.subrange(2, line.len() as int)
    } else {
        line
    };
    let p = first_index(r1, ' ');
    if p < r1.len() && is_date_word(r1.subrange(0, p)) {
        r1.subrange(p + 1, r1.len() as int)
    } else {
        r1
    }
}

/// The line a done task gets when it is made open again.
pub fn restored_line(line: &str) -> (r: String)
    ensures
        r@ == restored_text(line@),
{
    let cs = chars_of(line);
    let start: usize = if cs.len() >= 2 && cs[0] == 'x' && cs[1] == ' ' {
        2
    } else {
        0
    };
    let r1 = slice_range(cs.as_slice(), start, cs.len());
    assert(r1@ == (if line@.len() >= 2 && line@[0] == 'x' && line@[1] == ' ' {
        line@.subrange(2, line@.len() as int)
    } else {
        line@
    })) by {
        if start == 0 {
            assert(r1@ =~= line@);
        }
    }
    proof {
        lemma_first_index(r1@, ' ');
    }
    let p = find_char(r1, ' ');
    if p < r1.len() && is_date_word_of(slice_range(r1, 0, p)) {
        string_of(slice_range(r1, p + 1, r1.len()))
    } else {
        string_of(r1)
    }
}

} // verus!
