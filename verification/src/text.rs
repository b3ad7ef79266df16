//! Identities of topics as text.

use vstd::prelude::*;
use vstd::string::{StrSliceExecFns, StringExecFns};

verus! {

/// Whether `s` begins with a step to the parent directory, `../` or `..\`.
pub open spec fn starts_with_parent(s: Seq<char>) -> bool {
    s.len() >= 3 && s[0] == '.' && s[1] == '.' && (s[2] == '/' || s[2] == '\\')
}

/// Whether `s` begins with a step to the directory itself, `./` or `.\`.
pub open spec fn starts_with_here(s: Seq<char>) -> bool {
    s.len() >= 2 && s[0] == '.' && (s[1] == '/' || s[1] == '\\')
}

/// The identity that a path stands for: the path without the relative
/// steps it begins with, so that `../x`, `./x` and `x` name the same topic.
pub open spec fn clean_path(s: Seq<char>) -> Seq<char>
    decreases s.len(),
{
    if starts_with_parent(s) {
        clean_path(s.skip(3))
    } else if starts_with_here(s) {
        clean_path(s.skip(2))
    } else {
        s
    }
}

/// The paths of a list as plain text.
pub open spec fn paths_of(list: Seq<String>) -> Seq<Seq<char>> {
    Seq::new(list.len(), |i: int| list[i]@)
}

/// A clean path stays as it is.
pub proof fn lemma_clean_path_idempotent(s: Seq<char>)
    ensures
        clean_path(clean_path(s)) == clean_path(s),
    decreases s.len(),
{
    if starts_with_parent(s) {
        lemma_clean_path_idempotent(s.skip(3));
    } else if starts_with_here(s) {
        lemma_clean_path_idempotent(s.skip(2));
    }
}

/// The identity that `path` stands for.
pub fn clean(path: &String) -> (id: String)
    ensures
        id@ == clean_path(path@),
{
    let s = path.as_str();
    let n = s.unicode_len();
    let mut i: usize = 0;
    let mut done = false;
    proof {
        assert(s@.skip(0) =~= s@);
    }
    while !done
        invariant
            i <= n,
            n == s@.len(),
            clean_path(s@.skip(i as int)) == clean_path(s@),
            done ==> clean_path(s@.skip(i as int)) == s@.skip(i as int),
        decreases n - i + if done {
            0int
        } else {
            1int
        },
    {
        let ghost rest = s@.skip(i as int);
        if n - i >= 3 && s.get_char(i) == '.' && s.get_char(i + 1) == '.' && (s.get_char(i + 2)
            == '/' || s.get_char(i + 2) == '\\') {
            proof {
                assert(starts_with_parent(rest));
                assert(rest.skip(3) =~= s@.skip(i + 3));
            }
            i = i + 3;
        } else if n - i >= 2 && s.get_char(i) == '.' && (s.get_char(i + 1) == '/' || s.get_char(
            i + 1,
        ) == '\\') {
            proof {
                assert(!starts_with_parent(rest));
                assert(starts_with_here(rest));
                assert(rest.skip(2) =~= s@.skip(i + 2));
            }
            i = i + 2;
        } else {
            proof {
                assert(!starts_with_parent(rest));
                assert(!starts_with_here(rest));
            }
            done = true;
        }
    }
    proof {
        assert(s@.subrange(i as int, n as int) =~= s@.skip(i as int));
    }
    String::from_str(s.substring_char(i, n))
}

/// Whether `a` comes before `b` in the order of text: at the first place
/// where they differ `a` has the smaller character, or `a` ends there and
/// `b` goes on.
pub open spec fn text_less(a: Seq<char>, b: Seq<char>) -> bool
    decreases a.len(),
{
    if b.len() == 0 {
        false
    } else if a.len() == 0 {
        true
    } else if a[0] != b[0] {
        a[0] < b[0]
    } else {
        text_less(a.skip(1), b.skip(1))
    }
}

/// Of two different texts one comes before the other.
pub proof fn lemma_text_less_total(a: Seq<char>, b: Seq<char>)
    ensures
        a == b || text_less(a, b) || text_less(b, a),
        !(text_less(a, b) && text_less(b, a)),
        !text_less(a, a),
    decreases a.len(),
{
    if a.len() > 0 && b.len() > 0 && a[0] == b[0] {
        lemma_text_less_total(a.skip(1), b.skip(1));
        if a.skip(1) == b.skip(1) {
            assert(a =~= seq![a[0]] + a.skip(1));
            assert(b =~= seq![b[0]] + b.skip(1));
        }
    } else if a.len() == 0 && b.len() == 0 {
        assert(a =~= b);
    }
    if a.len() > 0 {
        lemma_text_less_total(a.skip(1), a.skip(1));
    }
}

/// The order of text carries over.
pub proof fn lemma_text_less_trans(a: Seq<char>, b: Seq<char>, c: Seq<char>)
    requires
        text_less(a, b),
        text_less(b, c),
    ensures
        text_less(a, c),
    decreases a.len(),
{
    if a.len() > 0 && a[0] == b[0] && b[0] == c[0] {
        lemma_text_less_trans(a.skip(1), b.skip(1), c.skip(1));
    }
}

/// Whether `a` comes before `b` in the order of text.
pub fn string_less(a: &String, b: &String) -> (r: bool)
    ensures
        r == text_less(a@, b@),
{
    let x = a.as_str();
    let y = b.as_str();
    let n = x.unicode_len();
    let m = y.unicode_len();
    let mut i: usize = 0;
    proof {
        assert(x@.skip(0) =~= x@);
        assert(y@.skip(0) =~= y@);
    }
    while i < n && i < m
        invariant
            x@ == a@,
            y@ == b@,
            n == x@.len(),
            m == y@.len(),
            i <= n,
            i <= m,
            text_less(x@, y@) == text_less(x@.skip(i as int), y@.skip(i as int)),
        decreases n - i,
    {
        let c = x.get_char(i);
        let d = y.get_char(i);
        proof {
            assert(x@.skip(i as int)[0] == c);
            assert(y@.skip(i as int)[0] == d);
            assert(x@.skip(i as int).skip(1) =~= x@.skip(i + 1));
            assert(y@.skip(i as int).skip(1) =~= y@.skip(i + 1));
        }
        if c != d {
            return c < d;
        }
        i = i + 1;
    }
    i < m
}

/// `s` with every `from` turned into `to`.
pub open spec fn with_char_replaced(s: Seq<char>, from: char, to: char) -> Seq<char> {
    Seq::new(
        s.len(),
        |i: int|
            if s[i] == from {
                to
            } else {
                s[i]
            },
    )
}

/// Position of the first `c` in `s`, counted in characters.
pub fn find_char(s: &str, c: char) -> (r: Option<usize>)
    ensures
        match r {
            Some(i) => i < s@.len() && s@[i as int] == c && forall|j: int|
                0 <= j < i ==> s@[j] != c,
            None => !s@.contains(c),
        },
{
    let n = s.unicode_len();
    let mut i: usize = 0;
    while i < n
        invariant
            n == s@.len(),
            i <= n,
            forall|j: int| 0 <= j < i ==> s@[j] != c,
        decreases n - i,
    {
        if s.get_char(i) == c {
            return Some(i);
        }
        i = i + 1;
    }
    None
}

/// Position of the last `c` in `s`, counted in characters.
pub fn rfind_char(s: &str, c: char) -> (r: Option<usize>)
    ensures
        match r {
            Some(i) => i < s@.len() && s@[i as int] == c && forall|j: int|
                i < j < s@.len() ==> s@[j] != c,
            None => !s@.contains(c),
        },
{
    let n = s.unicode_len();
    let mut i: usize = n;
    while i > 0
        invariant
            n == s@.len(),
            i <= n,
            forall|j: int| i <= j < n ==> s@[j] != c,
        decreases i,
    {
        i = i - 1;
        if s.get_char(i) == c {
            return Some(i);
        }
    }
    None
}

/// `s` with every underscore turned into a space.
pub fn underscores_to_spaces(s: &str) -> (r: String)
    ensures
        r@ == with_char_replaced(s@, '_', ' '),
{
    let n = s.unicode_len();
    let mut out = String::new();
    let mut begin: usize = 0;
    let mut i: usize = 0;
    proof {
        reveal_strlit(" ");
    }
    while i < n
        invariant
            n == s@.len(),
            begin <= i <= n,
            " "@ == seq![' '],
            out@ == with_char_replaced(s@.take(begin as int), '_', ' '),
            forall|j: int| begin <= j < i ==> s@[j] != '_',
        decreases n - i,
    {
        if s.get_char(i) == '_' {
            let ghost before = out@;
            out.append(s.substring_char(begin, i));
            out.append(" ");
            proof {
                assert(out@ =~= with_char_replaced(s@.take(i + 1), '_', ' '));
            }
            begin = i + 1;
        }
        i = i + 1;
    }
    out.append(s.substring_char(begin, n));
    proof {
        assert(out@ =~= with_char_replaced(s@, '_', ' '));
    }
    out
}

/// The texts of `list` rise strictly in the order of text.
pub open spec fn strictly_rising(list: Seq<String>) -> bool {
    forall|i: int, j: int|
        0 <= i < j < list.len() ==> text_less((#[trigger] list[i])@, (#[trigger] list[j])@)
}

/// Whether one of the texts in `list` is `t`.
pub open spec fn holds_text(list: Seq<String>, t: Seq<char>) -> bool {
    exists|i: int| 0 <= i < list.len() && (#[trigger] list[i])@ == t
}

/// The texts of `list` in rising order, each once.
pub fn sorted_unique(list: &Vec<String>) -> (out: Vec<String>)
    ensures
        strictly_rising(out@),
        forall|t: Seq<char>| holds_text(out@, t) <==> holds_text(list@, t),
{
    let mut out: Vec<String> = Vec::new();
    let mut k: usize = 0;
    while k < list.len()
        invariant
            k <= list@.len(),
            strictly_rising(out@),
            forall|t: Seq<char>| holds_text(out@, t) <==> holds_text(list@.take(k as int), t),
        decreases list@.len() - k,
    {
        let ghost prev = out@;
        let ghost seen = list@.take(k as int);
        let ghost grown = list@.take(k + 1);
        let x = &list[k];
        let mut pos: usize = 0;
        while pos < out.len() && string_less(&out[pos], x)
            invariant
                out@ == prev,
                pos <= prev.len(),
                forall|i: int| 0 <= i < pos ==> text_less((#[trigger] prev[i])@, x@),
            decreases prev.len() - pos,
        {
            pos = pos + 1;
        }
        let same = pos < out.len() && out[pos] == *x;
        if !same {
            out.insert(pos, x.clone());
        }
        proof {
            let next = out@;
            assert(grown =~= seen.push(list@[k as int]));
            if same {
                assert(next == prev);
            } else {
                assert(next == prev.insert(pos as int, next[pos as int]));
                assert(next[pos as int]@ == x@);
                if pos < prev.len() {
                    lemma_text_less_total(prev[pos as int]@, x@);
                }
                assert forall|i: int, j: int| 0 <= i < j < next.len() implies text_less(
                    (#[trigger] next[i])@,
                    (#[trigger] next[j])@,
                ) by {
                    let a = if i < pos {
                        i
                    } else {
                        i - 1
                    };
                    let b = if j < pos {
                        j
                    } else {
                        j - 1
                    };
                    if i != pos && j != pos {
                        assert(next[i] == prev[a] && next[j] == prev[b]);
                    } else if j == pos {
                        assert(next[i] == prev[i]);
                    } else {
                        assert(next[j] == prev[b]);
                        if b > pos {
                            assert(text_less(prev[pos as int]@, prev[b]@));
                            lemma_text_less_trans(x@, prev[pos as int]@, prev[b]@);
                        }
                    }
                }
            }
            assert forall|t: Seq<char>| holds_text(next, t) <==> holds_text(grown, t) by {
                if holds_text(next, t) {
                    let i = choose|i: int| 0 <= i < next.len() && (#[trigger] next[i])@ == t;
                    if !same && i == pos {
                        assert(grown[k as int]@ == t);
                    } else {
                        let a = if same || i < pos {
                            i
                        } else {
                            i - 1
                        };
                        assert(prev[a]@ == t);
                        assert(holds_text(prev, t));
                        let m = choose|m: int| 0 <= m < seen.len() && (#[trigger] seen[m])@ == t;
                        assert(grown[m]@ == t);
                    }
                }
                if holds_text(grown, t) {
                    let m = choose|m: int| 0 <= m < grown.len() && (#[trigger] grown[m])@ == t;
                    if m < k {
                        assert(seen[m]@ == t);
                        assert(holds_text(prev, t));
                        let i = choose|i: int| 0 <= i < prev.len() && (#[trigger] prev[i])@ == t;
                        if same || i < pos {
                            assert(next[i]@ == t);
                        } else {
                            assert(next[i + 1]@ == t);
                        }
                    } else {
                        assert(next[pos as int]@ == t);
                    }
                }
            }
        }
        k = k + 1;
    }
    proof {
        assert(list@.take(k as int) =~= list@);
    }
    out
}

} // verus!
