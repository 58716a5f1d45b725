//! Searching and cutting sequences: the notions in which the grammar is stated.

use vstd::prelude::*;
use vstd::slice::slice_subrange;

verus! {

/// The line feed, which ends a line.
pub const NEWLINE: u8 = 0x0a;

/// The carriage return.
pub const RETURN: u8 = 0x0d;

/// The tab.
pub const TAB: u8 = 0x09;

/// The space, which begins a continuation line.
pub const SPACE: u8 = 0x20;

/// The `-` of the comment delimiters.
pub const DASH: u8 = 0x2d;

/// The `:` that ends a field name.
pub const COLON: u8 = 0x3a;

/// The least index at which `x` occurs in `s`, or `s.len()` where it does not occur.
pub open spec fn first_index<T>(s: Seq<T>, x: T) -> int
    decreases s.len(),
{
    if s.len() == 0 || s[0] == x {
        0
    } else {
        1 + first_index(s.drop_first(), x)
    }
}

/// The greatest index at which `x` occurs in `s`, or `-1` where it does not occur.
pub open spec fn last_index<T>(s: Seq<T>, x: T) -> int
    decreases s.len(),
{
    if s.len() == 0 {
        -1
    } else if s.last() == x {
        s.len() - 1
    } else {
        last_index(s.drop_last(), x)
    }
}

/// `a` stands at index `i` of `s` and `b` right after it.
pub open spec fn pair_at<T>(s: Seq<T>, i: int, a: T, b: T) -> bool {
    0 <= i && i + 1 < s.len() && s[i] == a && s[i + 1] == b
}

/// The least index at which the pair `a`, `b` stands in `s`, or `s.len()` where
/// it stands nowhere.
pub open spec fn first_pair<T>(s: Seq<T>, a: T, b: T) -> int
    decreases s.len(),
{
    if s.len() < 2 {
        s.len() as int
    } else if s[0] == a && s[1] == b {
        0
    } else {
        1 + first_pair(s.drop_first(), a, b)
    }
}

/// A space or a tab.
pub open spec fn is_blank(b: u8) -> bool {
    b == SPACE || b == TAB
}

/// A space, a tab, a carriage return or a line feed.
pub open spec fn is_whitespace(b: u8) -> bool {
    b == SPACE || b == TAB || b == RETURN || b == NEWLINE
}

/// How many elements at the start of `s` satisfy `p`, up to the first that does not.
pub open spec fn run_len<T>(s: Seq<T>, p: spec_fn(T) -> bool) -> int
    decreases s.len(),
{
    if s.len() == 0 || !p(s[0]) {
        0
    } else {
        1 + run_len(s.drop_first(), p)
    }
}

/// The pieces of `s` between the occurrences of `sep`. There is always at least
/// one piece, and no piece holds `sep`.
pub open spec fn split<T>(s: Seq<T>, sep: T) -> Seq<Seq<T>>
    decreases s.len(),
{
    let i = first_index(s, sep);
    if 0 <= i < s.len() {
        seq![s.take(i)] + split(s.skip(i + 1), sep)
    } else {
        seq![s]
    }
}

/// The pieces put together again, with `sep` between each two.
pub open spec fn join<T>(parts: Seq<Seq<T>>, sep: T) -> Seq<T>
    decreases parts.len(),
{
    if parts.len() == 0 {
        Seq::empty()
    } else if parts.len() == 1 {
        parts[0]
    } else {
        join(parts.drop_last(), sep) + seq![sep] + parts.last()
    }
}

/// What `first_index` returns is in range, nothing before it is `x`, and it
/// points at `x` exactly when `x` occurs.
pub proof fn lemma_first_index<T>(s: Seq<T>, x: T)
    ensures
        0 <= first_index(s, x) <= s.len(),
        forall|j: int| 0 <= j < first_index(s, x) ==> s[j] != x,
        first_index(s, x) < s.len() ==> s[first_index(s, x)] == x,
        first_index(s, x) < s.len() <==> s.contains(x),
    decreases s.len(),
{
    if s.len() == 0 || s[0] == x {
    } else {
        let t = s.drop_first();
        lemma_first_index(t, x);
        let i = first_index(t, x);
        assert forall|j: int| 0 <= j < i + 1 implies s[j] != x by {
            if j > 0 {
                assert(s[j] == t[j - 1]);
            }
        }
        if i < t.len() {
            assert(s[i + 1] == t[i]);
        }
        if s.contains(x) {
            let k = choose|k: int| 0 <= k < s.len() && s[k] == x;
            assert(t[k - 1] == x);
            assert(t.contains(x));
        }
    }
}

/// An index that points at the first `x`, or the length where there is no `x`,
/// is what `first_index` returns.
pub proof fn lemma_first_index_is<T>(s: Seq<T>, x: T, i: int)
    requires
        0 <= i <= s.len(),
        forall|j: int| 0 <= j < i ==> s[j] != x,
        i < s.len() ==> s[i] == x,
    ensures
        first_index(s, x) == i,
{
    lemma_first_index(s, x);
}

/// What `first_pair` returns is in range, no pair starts before it, and it points
/// at a pair unless it is the length.
pub proof fn lemma_first_pair<T>(s: Seq<T>, a: T, b: T)
    ensures
        0 <= first_pair(s, a, b) <= s.len(),
        forall|j: int| 0 <= j < first_pair(s, a, b) ==> !#[trigger] pair_at(s, j, a, b),
        first_pair(s, a, b) < s.len() ==> pair_at(s, first_pair(s, a, b), a, b),
    decreases s.len(),
{
    if s.len() < 2 {
    } else if s[0] == a && s[1] == b {
    } else {
        let t = s.drop_first();
        lemma_first_pair(t, a, b);
        let i = first_pair(t, a, b);
        assert forall|j: int| 0 <= j < i + 1 implies !#[trigger] pair_at(s, j, a, b) by {
            if j > 0 && j + 1 < s.len() {
                assert(s[j] == t[j - 1]);
                assert(s[j + 1] == t[j]);
                assert(!pair_at(t, j - 1, a, b));
            }
        }
        if i < t.len() {
            assert(pair_at(t, i, a, b));
            assert(s[i + 1] == t[i]);
            assert(s[i + 2] == t[i + 1]);
        }
    }
}

/// An index that points at the first pair, or the length where there is no pair,
/// is what `first_pair` returns.
pub proof fn lemma_first_pair_is<T>(s: Seq<T>, a: T, b: T, i: int)
    requires
        0 <= i <= s.len(),
        forall|j: int| 0 <= j < i ==> !#[trigger] pair_at(s, j, a, b),
        i < s.len() ==> pair_at(s, i, a, b),
    ensures
        first_pair(s, a, b) == i,
{
    lemma_first_pair(s, a, b);
    let k = first_pair(s, a, b);
    if k < i {
        assert(pair_at(s, k, a, b));
    } else if i < k {
        assert(pair_at(s, i, a, b));
    }
}

/// What `run_len` returns is in range, everything before it satisfies `p`, and
/// the element it points at does not.
pub proof fn lemma_run_len<T>(s: Seq<T>, p: spec_fn(T) -> bool)
    ensures
        0 <= run_len(s, p) <= s.len(),
        forall|j: int| 0 <= j < run_len(s, p) ==> p(s[j]),
        run_len(s, p) < s.len() ==> !p(s[run_len(s, p)]),
    decreases s.len(),
{
    if s.len() == 0 || !p(s[0]) {
    } else {
        let t = s.drop_first();
        lemma_run_len(t, p);
        let i = run_len(t, p);
        assert forall|j: int| 0 <= j < i + 1 implies p(s[j]) by {
            if j > 0 {
                assert(s[j] == t[j - 1]);
            }
        }
        if i < t.len() {
            assert(s[i + 1] == t[i]);
        }
    }
}

/// An index with only `p` before it and no `p` at it is what `run_len` returns.
pub proof fn lemma_run_len_is<T>(s: Seq<T>, p: spec_fn(T) -> bool, i: int)
    requires
        0 <= i <= s.len(),
        forall|j: int| 0 <= j < i ==> p(s[j]),
        i < s.len() ==> !p(s[i]),
    ensures
        run_len(s, p) == i,
{
    lemma_run_len(s, p);
}

/// What `last_index` returns is in range, nothing after it is `x`, and it points
/// at `x` exactly when `x` occurs.
pub proof fn lemma_last_index<T>(s: Seq<T>, x: T)
    ensures
        -1 <= last_index(s, x) < s.len(),
        forall|j: int| last_index(s, x) < j < s.len() ==> s[j] != x,
        0 <= last_index(s, x) ==> s[last_index(s, x)] == x,
        0 <= last_index(s, x) <==> s.contains(x),
    decreases s.len(),
{
    if s.len() == 0 || s.last() == x {
    } else {
        let t = s.drop_last();
        lemma_last_index(t, x);
        let i = last_index(t, x);
        assert forall|j: int| i < j < s.len() implies s[j] != x by {
            if j < t.len() {
                assert(s[j] == t[j]);
            }
        }
        if 0 <= i {
            assert(s[i] == t[i]);
        }
        if s.contains(x) {
            let k = choose|k: int| 0 <= k < s.len() && s[k] == x;
            assert(t[k] == x);
            assert(t.contains(x));
        }
    }
}

/// The first occurrence in a sequence with one more element at its end: where it
/// was, and else at the new element or nowhere.
pub proof fn lemma_first_index_push<T>(s: Seq<T>, y: T, x: T)
    ensures
        first_index(s.push(y), x) == if s.contains(x) {
            first_index(s, x)
        } else if y == x {
            s.len() as int
        } else {
            s.len() as int + 1
        },
{
    lemma_first_index(s, x);
    let t = s.push(y);
    let i = first_index(s, x);
    if s.contains(x) {
        assert forall|j: int| 0 <= j < i implies t[j] != x by {
            assert(t[j] == s[j]);
        }
        assert(t[i] == s[i]);
        lemma_first_index_is(t, x, i);
    } else {
        assert forall|j: int| 0 <= j < s.len() implies t[j] != x by {
            assert(t[j] == s[j]);
        }
        if y == x {
            lemma_first_index_is(t, x, s.len() as int);
        } else {
            lemma_first_index_is(t, x, s.len() as int + 1);
        }
    }
}

/// Where `x` does not occur in `a`, its first occurrence in `a`, `x`, `rest` is
/// right after `a`.
pub proof fn lemma_first_index_after<T>(a: Seq<T>, x: T, rest: Seq<T>)
    requires
        !a.contains(x),
    ensures
        first_index(a + seq![x] + rest, x) == a.len(),
        (a + seq![x] + rest).take(a.len() as int) == a,
        (a + seq![x] + rest).skip(a.len() as int + 1) == rest,
{
    let s = a + seq![x] + rest;
    assert forall|j: int| 0 <= j < a.len() implies s[j] != x by {
        assert(s[j] == a[j]);
    }
    assert(s[a.len() as int] == x);
    lemma_first_index_is(s, x, a.len() as int);
    assert(s.take(a.len() as int) =~= a);
    assert(s.skip(a.len() as int + 1) =~= rest);
}

/// Joining from the front: the first piece, `sep`, and the other pieces joined.
pub proof fn lemma_join_front<T>(parts: Seq<Seq<T>>, sep: T)
    requires
        parts.len() >= 2,
    ensures
        join(parts, sep) == parts[0] + seq![sep] + join(parts.drop_first(), sep),
    decreases parts.len(),
{
    let front = parts.drop_last();
    let back = parts.drop_first();
    if parts.len() == 2 {
        assert(front.len() == 1 && back.len() == 1);
        assert(join(front, sep) == parts[0]);
        assert(join(back, sep) == parts[1]);
    } else {
        lemma_join_front(front, sep);
        assert(front.drop_first() =~= back.drop_last());
        assert(front[0] == parts[0]);
        assert(back.last() == parts.last());
        assert(join(parts, sep) =~= parts[0] + seq![sep] + join(back, sep));
    }
}

/// Cutting gives at least one piece, no piece holds `sep`, and the pieces joined
/// are the whole again.
pub proof fn lemma_split<T>(s: Seq<T>, sep: T)
    ensures
        split(s, sep).len() >= 1,
        forall|i: int|
            0 <= i < split(s, sep).len() ==> !(#[trigger] split(s, sep)[i]).contains(sep),
        join(split(s, sep), sep) == s,
    decreases s.len(),
{
    lemma_first_index(s, sep);
    let i = first_index(s, sep);
    let parts = split(s, sep);
    if i < s.len() {
        let head = s.take(i);
        let tail = s.skip(i + 1);
        lemma_split(tail, sep);
        assert(parts == seq![head] + split(tail, sep));
        assert(parts.drop_first() =~= split(tail, sep));
        assert forall|k: int| 0 <= k < parts.len() implies !(#[trigger] parts[k]).contains(sep) by {
            if k > 0 {
                assert(parts[k] == split(tail, sep)[k - 1]);
            }
        }
        lemma_join_front(parts, sep);
        assert(s =~= head + seq![sep] + tail);
    } else {
        assert(parts == seq![s]);
        assert(parts[0] == s);
    }
}

/// Pieces that hold no `sep` come back when what they join to is cut again.
pub proof fn lemma_split_join<T>(parts: Seq<Seq<T>>, sep: T)
    requires
        parts.len() >= 1,
        forall|i: int| 0 <= i < parts.len() ==> !(#[trigger] parts[i]).contains(sep),
    ensures
        split(join(parts, sep), sep) == parts,
    decreases parts.len(),
{
    if parts.len() == 1 {
        let s = parts[0];
        assert(join(parts, sep) == s);
        lemma_first_index(s, sep);
        assert(split(s, sep) =~= parts);
    } else {
        let rest = parts.drop_first();
        lemma_join_front(parts, sep);
        assert forall|i: int| 0 <= i < rest.len() implies !(#[trigger] rest[i]).contains(sep) by {
            assert(rest[i] == parts[i + 1]);
        }
        lemma_split_join(rest, sep);
        lemma_first_index_after(parts[0], sep, join(rest, sep));
        assert(split(join(parts, sep), sep) =~= parts);
    }
}

/// Mapping and flattening one more element appends what it maps to.
pub proof fn lemma_flat_map_push<A, B>(s: Seq<A>, f: spec_fn(A) -> Seq<B>, x: A)
    ensures
        s.push(x).flat_map(f) == s.flat_map(f) + f(x),
{
    assert(s.push(x).map_values(f) =~= s.map_values(f).push(f(x)));
    s.map_values(f).lemma_flatten_push(f(x));
}

/// Mapping and flattening begins with what the first element maps to.
pub proof fn lemma_flat_map_front<A, B>(s: Seq<A>, f: spec_fn(A) -> Seq<B>)
    requires
        s.len() > 0,
    ensures
        s.flat_map(f) == f(s[0]) + s.drop_first().flat_map(f),
{
    assert(s.map_values(f).drop_first() =~= s.drop_first().map_values(f));
}

/// The input from `from` on.
pub(crate) fn skip(input: &[u8], from: usize) -> (rest: &[u8])
    requires
        from <= input@.len(),
    ensures
        rest@ == input@.skip(from as int),
{
    slice_subrange(input, from, input.len())
}

/// The index of the first `b` in `input`, or its length.
pub fn find_byte(input: &[u8], b: u8) -> (i: usize)
    ensures
        i == first_index(input@, b),
        i <= input@.len(),
{
    let mut i: usize = 0;
    while i < input.len() && input[i] != b
        invariant
            i <= input@.len(),
            forall|j: int| 0 <= j < i ==> input@[j] != b,
        decreases input@.len() - i,
    {
        i += 1;
    }
    proof {
        lemma_first_index_is(input@, b, i as int);
    }
    i
}

/// The index of the first `a` that `b` follows in `input`, or its length.
pub fn find_pair(input: &[u8], a: u8, b: u8) -> (i: usize)
    ensures
        i == first_pair(input@, a, b),
        i <= input@.len(),
{
    let mut i: usize = 0;
    while i < input.len() && !(input[i] == a && i + 1 < input.len() && input[i + 1] == b)
        invariant
            i <= input@.len(),
            forall|j: int| 0 <= j < i ==> !#[trigger] pair_at(input@, j, a, b),
        decreases input@.len() - i,
    {
        i += 1;
    }
    proof {
        lemma_first_pair_is(input@, a, b, i as int);
    }
    i
}

} // verus!
