//! The line model of a text: how a sequence of codepoints splits into lines
//! at each '\n', and the facts about that split that the buffer relies on.
use vstd::prelude::*;

verus! {

/// The line lengths after one more character `c` is appended to a text
/// whose line lengths are `lens`.
pub open spec fn step(lens: Seq<int>, c: char) -> Seq<int> {
    if c == '\n' {
        lens.push(0)
    } else {
        lens.update(lens.len() - 1, lens.last() + 1)
    }
}

/// The codepoint length of each line of `s`, lines being separated by '\n'
/// and the separator belonging to no line. There is always at least one line.
pub open spec fn line_lens(s: Seq<char>) -> Seq<int>
    decreases s.len(),
{
    if s.len() == 0 {
        seq![0int]
    } else {
        step(line_lens(s.drop_last()), s.last())
    }
}

/// The offset at which line `i` starts: every earlier line with its separator.
pub open spec fn line_start(lens: Seq<int>, i: int) -> int
    decreases i,
{
    if i <= 0 {
        0
    } else {
        line_start(lens, i - 1) + lens[i - 1] + 1
    }
}

/// The number of newline characters in `s`.
pub open spec fn nl_count(s: Seq<char>) -> nat
    decreases s.len(),
{
    if s.len() == 0 {
        0
    } else {
        nl_count(s.drop_last()) + if s.last() == '\n' {
            1nat
        } else {
            0nat
        }
    }
}

/// The line lengths of `a + b`, given those of `a` and of `b`: the last line
/// of `a` and the first line of `b` join into one.
pub open spec fn join(x: Seq<int>, y: Seq<int>) -> Seq<int> {
    x.drop_last() + seq![x.last() + y[0]] + y.drop_first()
}

/// Line `i` of `s`, without its separator.
pub open spec fn line_of(s: Seq<char>, i: int) -> Seq<char> {
    let lens = line_lens(s);
    s.subrange(line_start(lens, i), line_start(lens, i) + lens[i])
}

proof fn lemma_start_prefix(a: Seq<int>, b: Seq<int>, i: int)
    requires
        0 <= i <= a.len(),
        i <= b.len(),
        forall|j: int| 0 <= j < i ==> a[j] == b[j],
    ensures
        line_start(a, i) == line_start(b, i),
    decreases i,
{
    if i > 0 {
        lemma_start_prefix(a, b, i - 1);
    }
}

/// The number of lines is one more than the number of newlines.
pub proof fn lemma_line_count(s: Seq<char>)
    ensures
        line_lens(s).len() == nl_count(s) + 1,
    decreases s.len(),
{
    if s.len() > 0 {
        lemma_line_count(s.drop_last());
    }
}

/// There is always at least one line.
pub proof fn lemma_has_line(s: Seq<char>)
    ensures
        line_lens(s).len() >= 1,
{
    lemma_line_count(s);
}

/// Line `i` of `s` in terms of the characters: it starts at
/// `line_start(line_lens(s), i)`, holds no newline, and is followed by a
/// newline, or, for the last line, by the end of the text.
pub proof fn lemma_line_at(s: Seq<char>, i: int)
    requires
        0 <= i < line_lens(s).len(),
    ensures
        line_lens(s)[i] >= 0,
        line_start(line_lens(s), i) >= 0,
        line_start(line_lens(s), i) + line_lens(s)[i] <= s.len(),
        forall|j: int|
            line_start(line_lens(s), i) <= j < line_start(line_lens(s), i) + line_lens(s)[i]
                ==> #[trigger] s[j] != '\n',
        i < line_lens(s).len() - 1 ==> line_start(line_lens(s), i) + line_lens(s)[i] < s.len()
            && s[line_start(line_lens(s), i) + line_lens(s)[i]] == '\n',
        i == line_lens(s).len() - 1 ==> line_start(line_lens(s), i) + line_lens(s)[i] == s.len(),
    decreases s.len(),
{
    let l = line_lens(s);
    if s.len() == 0 {
        assert(l =~= seq![0int]);
    } else {
        let t = s.drop_last();
        let c = s.last();
        let lt = line_lens(t);
        assert(l == step(lt, c));
        lemma_has_line(t);
        assert forall|j: int| 0 <= j < t.len() implies s[j] == t[j] by {}
        if i < lt.len() {
            lemma_line_at(t, i);
            lemma_start_prefix(l, lt, i);
            let e = line_start(lt, i) + lt[i];
            if i < lt.len() - 1 {
                assert(s[e] == t[e]);
            } else {
                assert(e == t.len());
                assert(s[e] == c);
            }
        } else {
            lemma_line_at(t, i - 1);
            lemma_start_prefix(l, lt, i - 1);
        }
    }
}

/// Splitting on '\n': every line of `line_lens(s)` is a maximal run of
/// characters other than '\n', the runs are taken in order, and together with
/// one separator between each two they make up the whole text.
pub proof fn lemma_line_structure(s: Seq<char>)
    ensures
        line_lens(s).len() >= 1,
        forall|i: int|
            0 <= i < line_lens(s).len() ==> #[trigger] line_lens(s)[i] >= 0 && line_start(
                line_lens(s),
                i,
            ) + line_lens(s)[i] <= s.len(),
        forall|i: int, j: int|
            0 <= i < line_lens(s).len() && line_start(line_lens(s), i) <= j && j < line_start(
                line_lens(s),
                i,
            ) + #[trigger] line_lens(s)[i] ==> #[trigger] s[j] != '\n',
        forall|i: int|
            0 <= i < line_lens(s).len() - 1 ==> s[line_start(line_lens(s), i) + #[trigger] line_lens(
                s,
            )[i]] == '\n',
        line_start(line_lens(s), line_lens(s).len() - 1) + line_lens(s).last() == s.len(),
{
    lemma_has_line(s);
    let l = line_lens(s);
    assert forall|i: int| 0 <= i < l.len() implies #[trigger] l[i] >= 0 && line_start(l, i) + l[i]
        <= s.len() by {
        lemma_line_at(s, i);
    }
    assert forall|i: int, j: int|
        0 <= i < l.len() && line_start(l, i) <= j && j < line_start(l, i) + #[trigger] l[i] implies #[trigger] s[j]
        != '\n' by {
        lemma_line_at(s, i);
    }
    assert forall|i: int| 0 <= i < l.len() - 1 implies s[line_start(l, i) + #[trigger] l[i]]
        == '\n' by {
        lemma_line_at(s, i);
    }
    lemma_line_at(s, l.len() - 1);
}

/// Lines come in order: each line, with its end, lies before every later line.
pub proof fn lemma_lines_ordered(s: Seq<char>, a: int, b: int)
    requires
        0 <= a < b <= line_lens(s).len(),
    ensures
        line_start(line_lens(s), a) + line_lens(s)[a] < line_start(line_lens(s), b),
    decreases b - a,
{
    lemma_line_at(s, b - 1);
    if b > a + 1 {
        lemma_lines_ordered(s, a, b - 1);
    }
}

/// Line starts never decrease.
pub proof fn lemma_start_monotone(s: Seq<char>, a: int, b: int)
    requires
        0 <= a <= b <= line_lens(s).len(),
    ensures
        line_start(line_lens(s), a) <= line_start(line_lens(s), b),
{
    if a < b {
        lemma_lines_ordered(s, a, b);
        lemma_line_at(s, a);
    }
}

proof fn lemma_step_join(x: Seq<int>, y: Seq<int>, c: char)
    requires
        x.len() >= 1,
        y.len() >= 1,
    ensures
        step(join(x, y), c) == join(x, step(y, c)),
{
    if c == '\n' {
        assert(step(join(x, y), c) =~= join(x, step(y, c)));
    } else {
        assert(step(join(x, y), c) =~= join(x, step(y, c)));
    }
}

/// The line lengths of a concatenation: the last line of `a` and the first
/// line of `b` become one line.
pub proof fn lemma_lens_concat(a: Seq<char>, b: Seq<char>)
    ensures
        line_lens(a + b) == join(line_lens(a), line_lens(b)),
    decreases b.len(),
{
    lemma_has_line(a);
    if b.len() == 0 {
        assert(a + b =~= a);
        assert(join(line_lens(a), line_lens(b)) =~= line_lens(a));
    } else {
        let b0 = b.drop_last();
        assert((a + b).drop_last() =~= a + b0);
        assert((a + b).last() == b.last());
        lemma_lens_concat(a, b0);
        lemma_has_line(b0);
        lemma_step_join(line_lens(a), line_lens(b0), b.last());
    }
}

/// Removing the newline that ends line `i` merges lines `i` and `i + 1`: the
/// merged line is as long as both together, there is one line fewer, and
/// every other line keeps its length.
pub proof fn lemma_remove_newline_merges(s: Seq<char>, i: int)
    requires
        0 <= i < line_lens(s).len() - 1,
    ensures
        ({
            let old_lens = line_lens(s);
            let p = line_start(old_lens, i) + old_lens[i];
            let new_lens = line_lens(s.remove(p));
            &&& 0 <= p < s.len()
            &&& s[p] == '\n'
            &&& new_lens.len() == old_lens.len() - 1
            &&& new_lens[i] == old_lens[i] + old_lens[i + 1]
            &&& forall|j: int| 0 <= j < i ==> new_lens[j] == old_lens[j]
            &&& forall|j: int| i < j < new_lens.len() ==> new_lens[j] == old_lens[j + 1]
        }),
{
    let l = line_lens(s);
    lemma_line_at(s, i);
    let p = line_start(l, i) + l[i];
    let a = s.subrange(0, p);
    let b = s.subrange(p + 1, s.len() as int);
    let la = line_lens(a);
    let lb = line_lens(b);
    lemma_has_line(a);
    lemma_has_line(b);
    assert(s =~= a.push('\n') + b);
    assert(s.remove(p) =~= a + b);
    lemma_lens_concat(a.push('\n'), b);
    lemma_lens_concat(a, b);
    assert(a.push('\n').drop_last() =~= a);
    assert(line_lens(a.push('\n')) == la.push(0));
    assert(l =~= la + lb);
    let m = la.len() - 1;
    lemma_line_at(a, m);
    lemma_start_prefix(l, la, m);
    assert(line_start(l, m) + l[m] == p);
    if m < i {
        lemma_lines_ordered(s, m, i);
    } else if i < m {
        lemma_lines_ordered(s, i, m);
        lemma_line_at(s, m);
    }
    assert(m == i);
}

/// The line that holds offset `p`, counting the position just past the end
/// of a line as part of it.
pub open spec fn in_line(lens: Seq<int>, k: int, p: int) -> bool {
    0 <= k < lens.len() && line_start(lens, k) <= p <= line_start(lens, k) + lens[k]
}

/// Each offset of the text, the end included, lies in exactly one line.
pub proof fn lemma_in_line_unique(s: Seq<char>, k1: int, k2: int, p: int)
    requires
        in_line(line_lens(s), k1, p),
        in_line(line_lens(s), k2, p),
    ensures
        k1 == k2,
{
    if k1 < k2 {
        lemma_lines_ordered(s, k1, k2);
    } else if k2 < k1 {
        lemma_lines_ordered(s, k2, k1);
    }
}

/// Inserting a character other than a newline at an offset of line `k`
/// makes line `k` one longer and leaves every other line as it was.
pub proof fn lemma_insert_in_line(s: Seq<char>, p: int, c: char, k: int)
    requires
        c != '\n',
        0 <= p <= s.len(),
        in_line(line_lens(s), k, p),
    ensures
        line_lens(s.insert(p, c)) == line_lens(s).update(k, line_lens(s)[k] + 1),
{
    let l = line_lens(s);
    let a = s.subrange(0, p);
    let b = s.subrange(p, s.len() as int);
    let la = line_lens(a);
    let lb = line_lens(b);
    lemma_has_line(a);
    lemma_has_line(b);
    assert(s =~= a + b);
    assert(s.insert(p, c) =~= a.push(c) + b);
    assert(a.push(c).drop_last() =~= a);
    lemma_lens_concat(a, b);
    lemma_lens_concat(a.push(c), b);
    let m = la.len() - 1;
    lemma_line_at(a, m);
    lemma_line_at(b, 0);
    lemma_start_prefix(l, la, m);
    assert(in_line(l, m, p));
    lemma_in_line_unique(s, k, m, p);
    assert(line_lens(s.insert(p, c)) =~= l.update(k, l[k] + 1));
}

/// Removing a character other than a newline from line `k` makes line `k`
/// one shorter and leaves every other line as it was.
pub proof fn lemma_remove_in_line(s: Seq<char>, p: int, k: int)
    requires
        0 <= p < s.len(),
        s[p] != '\n',
        in_line(line_lens(s), k, p),
    ensures
        line_lens(s.remove(p)) == line_lens(s).update(k, line_lens(s)[k] - 1),
        line_lens(s)[k] >= 1,
{
    let l = line_lens(s);
    let a = s.subrange(0, p);
    let b = s.subrange(p + 1, s.len() as int);
    let x = s[p];
    let la = line_lens(a);
    let lb = line_lens(b);
    lemma_has_line(a);
    lemma_has_line(b);
    assert(s =~= a.push(x) + b);
    assert(s.remove(p) =~= a + b);
    assert(a.push(x).drop_last() =~= a);
    lemma_lens_concat(a, b);
    lemma_lens_concat(a.push(x), b);
    let m = la.len() - 1;
    lemma_line_at(a, m);
    lemma_line_at(b, 0);
    lemma_start_prefix(l, la, m);
    assert(in_line(l, m, p));
    lemma_in_line_unique(s, k, m, p);
    assert(line_lens(s.remove(p)) =~= l.update(k, l[k] - 1));
}

} // verus!
