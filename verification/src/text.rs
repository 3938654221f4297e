//! Delimited text: splitting a character sequence into fields and joining
//! fields back together, with the facts that relate the two.

use vstd::prelude::*;

verus! {

/// The position of the first occurrence of `d` in `s`, or `s.len()` when
/// `d` does not occur.
pub open spec fn first_index(s: Seq<char>, d: char) -> int
    decreases s.len(),
{
    if s.len() == 0 || s[0] == d {
        0
    } else {
        1 + first_index(s.drop_first(), d)
    }
}

/// `s` cut at occurrences of `d` into at most `n` fields; the last field
/// keeps whatever is left, delimiters included. A text without delimiter,
/// the empty text too, is one field.
pub open spec fn split_at_most(s: Seq<char>, d: char, n: nat) -> Seq<Seq<char>>
    decreases n,
{
    let i = first_index(s, d);
    if n <= 1 || i >= s.len() {
        seq![s]
    } else {
        seq![s.take(i)] + split_at_most(s.skip(i + 1), d, (n - 1) as nat)
    }
}

/// `s` cut at every occurrence of `d`.
pub open spec fn split(s: Seq<char>, d: char) -> Seq<Seq<char>> {
    split_at_most(s, d, s.len() + 1)
}

/// The fields of `parts` written one after another with `d` between them.
pub open spec fn join(parts: Seq<Seq<char>>, d: char) -> Seq<char>
    decreases parts.len(),
{
    if parts.len() == 0 {
        Seq::empty()
    } else if parts.len() == 1 {
        parts[0]
    } else {
        parts[0] + seq![d] + join(parts.drop_first(), d)
    }
}

/// The fields of `parts` written one after another with the text `sep`
/// between them.
pub open spec fn join_with(parts: Seq<Seq<char>>, sep: Seq<char>) -> Seq<char>
    decreases parts.len(),
{
    if parts.len() == 0 {
        Seq::empty()
    } else if parts.len() == 1 {
        parts[0]
    } else {
        parts[0] + sep + join_with(parts.drop_first(), sep)
    }
}

/// No field of `parts` holds the character `d`.
pub open spec fn all_free_of(parts: Seq<Seq<char>>, d: char) -> bool {
    forall|i: int| 0 <= i < parts.len() ==> !(#[trigger] parts[i]).contains(d)
}

/// Joining with a text of one character is joining with that character.
pub proof fn lemma_join_with_char(parts: Seq<Seq<char>>, d: char)
    ensures
        join_with(parts, seq![d]) == join(parts, d),
    decreases parts.len(),
{
    if parts.len() >= 2 {
        lemma_join_with_char(parts.drop_first(), d);
    }
}

/// The first index stands inside the text or at its end, no delimiter
/// comes before it, and it holds the delimiter where it stands inside.
pub proof fn lemma_first_index(s: Seq<char>, d: char)
    ensures
        0 <= first_index(s, d) <= s.len(),
        forall|j: int| 0 <= j < first_index(s, d) ==> s[j] != d,
        first_index(s, d) < s.len() ==> s[first_index(s, d)] == d,
        first_index(s, d) == s.len() <==> !s.contains(d),
    decreases s.len(),
{
    if s.len() == 0 || s[0] == d {
    } else {
        let t = s.drop_first();
        lemma_first_index(t, d);
        assert forall|j: int| 0 <= j < first_index(s, d) implies s[j] != d by {
            if j > 0 {
                assert(s[j] == t[j - 1]);
            }
        }
        if first_index(s, d) < s.len() {
            assert(s[first_index(s, d)] == t[first_index(t, d)]);
        }
        if t.contains(d) {
            let k = choose|k: int| 0 <= k < t.len() && t[k] == d;
            assert(s[k + 1] == d);
        }
        if s.contains(d) {
            let k = choose|k: int| 0 <= k < s.len() && s[k] == d;
            assert(t[k - 1] == d);
        }
    }
}

/// A position that has no `d` before it and either ends `s` or holds `d`
/// is the first index of `d`.
pub proof fn lemma_first_index_is(s: Seq<char>, d: char, i: int)
    requires
        0 <= i <= s.len(),
        forall|j: int| 0 <= j < i ==> s[j] != d,
        i < s.len() ==> s[i] == d,
    ensures
        first_index(s, d) == i,
{
    lemma_first_index(s, d);
    let f = first_index(s, d);
    if f < i {
        assert(s[f] == d);
    } else if f > i {
        assert(s[i] == d);
    }
}

/// A split gives at least one field, no more fields than the limit, and
/// no more than there are characters and one.
pub proof fn lemma_split_at_most_len(s: Seq<char>, d: char, n: nat)
    ensures
        1 <= split_at_most(s, d, n).len(),
        n >= 1 ==> split_at_most(s, d, n).len() <= n,
        split_at_most(s, d, n).len() <= s.len() + 1,
    decreases n,
{
    lemma_first_index(s, d);
    let i = first_index(s, d);
    if n <= 1 || i >= s.len() {
    } else {
        lemma_split_at_most_len(s.skip(i + 1), d, (n - 1) as nat);
    }
}

/// A split under a smaller limit agrees with one under a larger limit on
/// every field before its last, and is the same split where the larger one
/// made no more fields than the smaller limit allows.
pub proof fn lemma_split_at_most_prefix(s: Seq<char>, d: char, n: nat, m: nat)
    requires
        1 <= n <= m,
    ensures
        split_at_most(s, d, n).len() == if split_at_most(s, d, m).len() <= n {
            split_at_most(s, d, m).len()
        } else {
            n
        },
        forall|k: int|
            0 <= k < split_at_most(s, d, n).len() - 1 ==> #[trigger] split_at_most(s, d, n)[k]
                == split_at_most(s, d, m)[k],
        split_at_most(s, d, m).len() <= n ==> split_at_most(s, d, n) == split_at_most(s, d, m),
    decreases n,
{
    lemma_first_index(s, d);
    let i = first_index(s, d);
    let a = split_at_most(s, d, n);
    let b = split_at_most(s, d, m);
    lemma_split_at_most_len(s, d, m);
    if i >= s.len() {
    } else if n <= 1 {
        if m > 1 {
            lemma_split_at_most_len(s.skip(i + 1), d, (m - 1) as nat);
        }
    } else {
        let ra = split_at_most(s.skip(i + 1), d, (n - 1) as nat);
        let rb = split_at_most(s.skip(i + 1), d, (m - 1) as nat);
        lemma_split_at_most_prefix(s.skip(i + 1), d, (n - 1) as nat, (m - 1) as nat);
        assert(a == seq![s.take(i)] + ra);
        assert(b == seq![s.take(i)] + rb);
        assert forall|k: int| 0 <= k < a.len() - 1 implies #[trigger] a[k] == b[k] by {
            if k > 0 {
                assert(a[k] == ra[k - 1]);
                assert(b[k] == rb[k - 1]);
            }
        }
    }
}

/// Joining what a split gave restores the text.
pub proof fn lemma_join_split_at_most(s: Seq<char>, d: char, n: nat)
    ensures
        join(split_at_most(s, d, n), d) == s,
    decreases n,
{
    lemma_first_index(s, d);
    let i = first_index(s, d);
    if n <= 1 || i >= s.len() {
        assert(split_at_most(s, d, n) == seq![s]);
    } else {
        let rest = split_at_most(s.skip(i + 1), d, (n - 1) as nat);
        lemma_join_split_at_most(s.skip(i + 1), d, (n - 1) as nat);
        lemma_split_at_most_len(s.skip(i + 1), d, (n - 1) as nat);
        let all = seq![s.take(i)] + rest;
        assert(all.drop_first() == rest);
        assert(all[0] == s.take(i));
        assert(join(all, d) == s.take(i) + seq![d] + s.skip(i + 1));
        assert(s.take(i) + seq![d] + s.skip(i + 1) =~= s);
    }
}

/// Joining the fields of a text restores the text.
pub proof fn lemma_join_split(s: Seq<char>, d: char)
    ensures
        join(split(s, d), d) == s,
{
    lemma_join_split_at_most(s, d, s.len() + 1);
}

/// A joined text is at least as long as its first field, and has a
/// character for each delimiter.
pub proof fn lemma_join_len(parts: Seq<Seq<char>>, d: char)
    ensures
        join(parts, d).len() >= parts.len() - 1,
        parts.len() >= 1 ==> join(parts, d).len() >= parts[0].len(),
    decreases parts.len(),
{
    if parts.len() >= 2 {
        lemma_join_len(parts.drop_first(), d);
    }
}

/// Splitting a joined text gives the fields back, provided that there is
/// at least one field, that the limit admits them all, and that the
/// delimiter occurs in no field but, where the limit is met exactly, the
/// last.
pub proof fn lemma_split_at_most_join(parts: Seq<Seq<char>>, d: char, n: nat)
    requires
        1 <= parts.len() <= n,
        all_free_of(parts.drop_last(), d),
        parts.len() < n ==> !parts.last().contains(d),
    ensures
        split_at_most(join(parts, d), d, n) == parts,
    decreases parts.len(),
{
    let s = join(parts, d);
    if parts.len() == 1 {
        lemma_first_index(s, d);
        assert(parts =~= seq![parts[0]]);
    } else {
        let head = parts[0];
        let tail = parts.drop_first();
        assert(parts.drop_last()[0] == head);
        assert(!head.contains(d));
        assert(s == head + seq![d] + join(tail, d));
        assert forall|j: int| 0 <= j < head.len() implies s[j] != d by {
            assert(s[j] == head[j]);
            if head[j] == d {
                assert(head.contains(d));
            }
        }
        assert(s[head.len() as int] == d);
        lemma_first_index_is(s, d, head.len() as int);
        assert(s.take(head.len() as int) =~= head);
        assert(s.skip(head.len() as int + 1) =~= join(tail, d));
        assert(tail.drop_last() =~= parts.drop_last().drop_first());
        assert(all_free_of(tail.drop_last(), d)) by {
            assert forall|i: int| 0 <= i < tail.drop_last().len() implies !(
            #[trigger] tail.drop_last()[i]).contains(d) by {
                assert(tail.drop_last()[i] == parts.drop_last()[i + 1]);
            }
        }
        assert(tail.last() == parts.last());
        lemma_split_at_most_join(tail, d, (n - 1) as nat);
        assert(seq![head] + tail =~= parts);
    }
}

/// Splitting a joined text gives the fields back when there is at least one
/// field and none holds the delimiter.
pub proof fn lemma_split_join(parts: Seq<Seq<char>>, d: char)
    requires
        parts.len() >= 1,
        all_free_of(parts, d),
    ensures
        split(join(parts, d), d) == parts,
{
    let s = join(parts, d);
    lemma_join_len(parts, d);
    assert(all_free_of(parts.drop_last(), d)) by {
        assert forall|i: int| 0 <= i < parts.drop_last().len() implies !(
        #[trigger] parts.drop_last()[i]).contains(d) by {
            assert(parts.drop_last()[i] == parts[i]);
        }
    }
    assert(!parts.last().contains(d)) by {
        assert(parts.last() == parts[parts.len() - 1]);
    }
    lemma_split_at_most_join(parts, d, s.len() + 1);
}

/// The characters of a string slice, in order.
pub fn chars_of(s: &str) -> (out: Vec<char>)
    ensures
        out@ == s@,
{
    let mut out: Vec<char> = Vec::new();
    for c in it: s.chars()
        invariant
            out@ == it.seq().take(it.index() as int),
            it.seq() == s@,
    {
        out.push(c);
    }
    out
}

/// Whether two texts hold the same characters.
pub fn same_text(a: &str, b: &str) -> (r: bool)
    ensures
        r == (a@ == b@),
{
    let x = a.to_owned();
    let y = b.to_owned();
    x == y
}

/// The limit that a split runs under: the given one, or one above the
/// number of characters, which no split reaches.
pub open spec fn limit_of(s: Seq<char>, limit: Option<usize>) -> nat {
    match limit {
        Some(n) => n as nat,
        None => s.len() + 1,
    }
}

fn split_core(s: &str, d: char, limit: Option<usize>) -> (out: Vec<String>)
    ensures
        out.deep_view() == split_at_most(s@, d, limit_of(s@, limit)),
{
    let chars = chars_of(s);
    let n: usize = chars.len();
    let ghost budget: nat = limit_of(s@, limit);
    let mut out: Vec<String> = Vec::new();
    let mut start: usize = 0;
    let mut i: usize = 0;
    let mut may_cut: bool = match limit {
        Some(l) => l > 1,
        None => true,
    };
    proof {
        assert(s@.skip(0) =~= s@);
        assert(out.deep_view() =~= Seq::<Seq<char>>::empty());
        assert(Seq::<Seq<char>>::empty() + split_at_most(s@, d, budget) =~= split_at_most(
            s@,
            d,
            budget,
        ));
    }
    while i < n && may_cut
        invariant
            chars@ == s@,
            n == chars.len(),
            start <= i <= n,
            out.len() <= start,
            out.len() <= budget,
            budget == limit_of(s@, limit),
            forall|j: int| start <= j < i ==> chars[j] != d,
            limit is Some ==> (may_cut <==> budget - out.len() > 1),
            limit is None ==> may_cut,
            split_at_most(s@, d, budget) == out.deep_view() + split_at_most(
                s@.skip(start as int),
                d,
                (budget - out.len()) as nat,
            ),
        decreases n - i,
    {
        if chars[i] == d {
            let field = s.substring_char(start, i).to_owned();
            proof {
                let rest = s@.skip(start as int);
                lemma_first_index_is(rest, d, i - start);
                assert(rest.take(i - start) =~= s@.subrange(start as int, i as int));
                assert(rest.skip(i - start + 1) =~= s@.skip(i + 1));
                assert(out.deep_view() + (seq![field@] + split_at_most(
                    s@.skip(i + 1),
                    d,
                    (budget - out.len() - 1) as nat,
                )) =~= out.deep_view().push(field@) + split_at_most(
                    s@.skip(i + 1),
                    d,
                    (budget - out.len() - 1) as nat,
                ));
            }
            let ghost before = out.deep_view();
            out.push(field);
            assert(out.deep_view() =~= before.push(field@));
            start = i + 1;
            may_cut = match limit {
                Some(l) => out.len() + 1 < l,
                None => true,
            };
        }
        i += 1;
    }
    let last = s.substring_char(start, n).to_owned();
    proof {
        let rest = s@.skip(start as int);
        assert(rest =~= s@.subrange(start as int, n as int));
        if may_cut {
            lemma_first_index_is(rest, d, rest.len() as int);
        }
        assert(split_at_most(rest, d, (budget - out.len()) as nat) == seq![rest]);
        assert(out.deep_view() + seq![rest] =~= out.deep_view().push(last@));
    }
    let ghost before = out.deep_view();
    out.push(last);
    assert(out.deep_view() =~= before.push(last@));
    out
}

/// Cuts `s` at occurrences of `d` into at most `limit` fields, the last of
/// which keeps the rest of the text.
pub fn split_text_at_most(s: &str, d: char, limit: usize) -> (out: Vec<String>)
    ensures
        out.deep_view() == split_at_most(s@, d, limit as nat),
{
    split_core(s, d, Some(limit))
}

/// Cuts `s` at every occurrence of `d`.
pub fn split_text(s: &str, d: char) -> (out: Vec<String>)
    ensures
        out.deep_view() == split(s@, d),
{
    split_core(s, d, None)
}

/// Writes the fields one after another with `sep` between them.
pub fn join_text(parts: &Vec<String>, sep: &str) -> (out: String)
    ensures
        out@ == join_with(parts.deep_view(), sep@),
{
    let mut out = String::new();
    let n: usize = parts.len();
    let mut i: usize = n;
    let ghost all = parts.deep_view();
    proof {
        assert(all.skip(n as int) =~= Seq::<Seq<char>>::empty());
    }
    // The text is built from the last field backwards, as `join_with` unfolds.
    while i > 0
        invariant
            i <= n,
            n == parts.len(),
            all == parts.deep_view(),
            out@ == join_with(all.skip(i as int), sep@),
        decreases i,
    {
        i -= 1;
        let mut next = parts[i].clone();
        proof {
            let tail = all.skip(i as int);
            assert(tail.drop_first() =~= all.skip(i + 1));
            assert(tail[0] == parts[i as int]@);
        }
        if i + 1 < n {
            next.append(sep);
            next.append(out.as_str());
        }
        out = next;
    }
    proof {
        assert(all.skip(0) =~= all);
    }
    out
}

} // verus!
