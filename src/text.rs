//! Character-level text handling for the tab-separated record files.
use vstd::prelude::*;

verus! {

/// Whitespace as `char::is_whitespace` defines it (Unicode `White_Space`).
pub open spec fn is_white(c: char) -> bool {
    c == '\t' || c == '\n' || c == '\u{0B}' || c == '\u{0C}' || c == '\r' || c == ' '
        || c == '\u{85}' || c == '\u{A0}' || c == '\u{1680}' || ('\u{2000}' <= c && c
        <= '\u{200A}') || c == '\u{2028}' || c == '\u{2029}' || c == '\u{202F}' || c
        == '\u{205F}' || c == '\u{3000}'
}

/// The pieces of `s` between occurrences of `sep`; always at least one piece.
pub open spec fn split(s: Seq<char>, sep: char) -> Seq<Seq<char>>
    decreases s.len(),
{
    if s.len() == 0 {
        seq![Seq::<char>::empty()]
    } else {
        let p = split(s.drop_last(), sep);
        if s.last() == sep {
            p.push(Seq::<char>::empty())
        } else {
            p.update(p.len() - 1, p.last().push(s.last()))
        }
    }
}

/// Number of leading whitespace characters of `s`.
pub open spec fn lead_white(s: Seq<char>) -> nat
    decreases s.len(),
{
    if s.len() > 0 && is_white(s[0]) {
        1 + lead_white(s.drop_first())
    } else {
        0
    }
}

/// Number of trailing whitespace characters of `s`.
pub open spec fn trail_white(s: Seq<char>) -> nat
    decreases s.len(),
{
    if s.len() > 0 && is_white(s.last()) {
        1 + trail_white(s.drop_last())
    } else {
        0
    }
}

/// `s` without leading and trailing whitespace, as `str::trim` gives it.
pub open spec fn trim(s: Seq<char>) -> Seq<char> {
    let a = lead_white(s);
    let t = s.skip(a as int);
    t.take(t.len() - trail_white(t))
}

/// A line without its terminating carriage return, if it has one.
pub open spec fn strip_cr(l: Seq<char>) -> Seq<char> {
    if l.len() > 0 && l.last() == '\r' {
        l.drop_last()
    } else {
        l
    }
}

/// Number of lines of `ls` that remain once trailing empty lines are dropped.
pub open spec fn kept_len(ls: Seq<Seq<char>>) -> nat
    decreases ls.len(),
{
    if ls.len() > 0 && strip_cr(ls.last()).len() == 0 {
        kept_len(ls.drop_last())
    } else {
        ls.len()
    }
}

/// The lines of a text: split on `'\n'`, each without a final `'\r'`, with
/// empty lines at the end ignored.
pub open spec fn lines(s: Seq<char>) -> Seq<Seq<char>> {
    let ls = split(s, '\n');
    ls.take(kept_len(ls) as int).map_values(|l: Seq<char>| strip_cr(l))
}

proof fn lemma_lead_white_bound(s: Seq<char>)
    ensures
        lead_white(s) <= s.len(),
    decreases s.len(),
{
    if s.len() > 0 && is_white(s[0]) {
        lemma_lead_white_bound(s.drop_first());
    }
}

proof fn lemma_trail_white_bound(s: Seq<char>)
    ensures
        trail_white(s) <= s.len(),
    decreases s.len(),
{
    if s.len() > 0 && is_white(s.last()) {
        lemma_trail_white_bound(s.drop_last());
    }
}

proof fn lemma_kept_len_bound(ls: Seq<Seq<char>>)
    ensures
        kept_len(ls) <= ls.len(),
    decreases ls.len(),
{
    if ls.len() > 0 && strip_cr(ls.last()).len() == 0 {
        lemma_kept_len_bound(ls.drop_last());
    }
}

pub proof fn lemma_split_nonempty(s: Seq<char>, sep: char)
    ensures
        split(s, sep).len() >= 1,
    decreases s.len(),
{
    if s.len() > 0 {
        lemma_split_nonempty(s.drop_last(), sep);
    }
}

/// Splitting text that does not hold the separator gives the text itself.
pub proof fn lemma_split_single(s: Seq<char>, sep: char)
    requires
        !s.contains(sep),
    ensures
        split(s, sep) == seq![s],
    decreases s.len(),
{
    if s.len() > 0 {
        let d = s.drop_last();
        assert(!d.contains(sep)) by {
            if d.contains(sep) {
                let k = choose|k: int| 0 <= k < d.len() && d[k] == sep;
                assert(s[k] == sep);
            }
        }
        lemma_split_single(d, sep);
        assert(s.last() != sep) by {
            assert(s[s.len() - 1] == s.last());
        }
        assert(d.push(s.last()) =~= s);
        assert(split(s, sep) =~= seq![s]);
    } else {
        assert(s =~= Seq::<char>::empty());
    }
}

/// Splitting at a separator between two texts splits each of them.
pub proof fn lemma_split_join(x: Seq<char>, y: Seq<char>, sep: char)
    ensures
        split(x + seq![sep] + y, sep) == split(x, sep) + split(y, sep),
    decreases y.len(),
{
    let s = x + seq![sep] + y;
    if y.len() == 0 {
        assert(s.drop_last() =~= x);
        assert(split(s, sep) =~= split(x, sep) + split(y, sep));
    } else {
        assert(s.drop_last() =~= x + seq![sep] + y.drop_last());
        lemma_split_join(x, y.drop_last(), sep);
        lemma_split_nonempty(y.drop_last(), sep);
        lemma_split_nonempty(x, sep);
        assert(s.last() == y.last());
        assert(split(s, sep) =~= split(x, sep) + split(y, sep));
    }
}

/// Text whose first and last characters are not whitespace is its own trim.
pub proof fn lemma_trim_solid(s: Seq<char>)
    requires
        s.len() == 0 || (!is_white(s[0]) && !is_white(s.last())),
    ensures
        trim(s) == s,
{
    assert(lead_white(s) == 0);
    assert(s.skip(0) =~= s);
    assert(trail_white(s) == 0);
    assert(s.take(s.len() as int) =~= s);
}

/// Joining two texts with a character other than `c` keeps `c` out.
pub proof fn lemma_join_free(a: Seq<char>, x: char, b: Seq<char>, c: char)
    requires
        !a.contains(c),
        !b.contains(c),
        x != c,
    ensures
        !(a + seq![x] + b).contains(c),
{
    let s = a + seq![x] + b;
    if s.contains(c) {
        let k = choose|k: int| 0 <= k < s.len() && s[k] == c;
        if k < a.len() {
            assert(a[k] == c);
        } else if k > a.len() {
            assert(b[k - a.len() - 1] == c);
        }
    }
}

/// Text that is its own trim does not end in whitespace.
pub proof fn lemma_trim_keeps_last(s: Seq<char>)
    requires
        s.len() > 0,
        trim(s) == s,
    ensures
        !is_white(s.last()),
{
    lemma_lead_white_bound(s);
    let t = s.skip(lead_white(s) as int);
    lemma_trail_white_bound(t);
    assert(trim(s).len() == t.len() - trail_white(t));
    assert(t =~= s);
}

/// Relies on `str::chars`: the characters of `s`, in order.
#[verifier::external_body]
pub(crate) fn chars_of(s: &str) -> (r: Vec<char>)
    ensures
        r@ == s@,
{
    s.chars().collect()
}

/// Relies on `FromIterator<char>` for `String`: the text of these characters.
#[verifier::external_body]
pub(crate) fn string_of(cs: &[char]) -> (r: String)
    ensures
        r@ == cs@,
{
    cs.iter().collect()
}

/// Whether `c` is whitespace.
pub fn white(c: char) -> (r: bool)
    ensures
        r == is_white(c),
{
    c == '\t' || c == '\n' || c == '\u{0B}' || c == '\u{0C}' || c == '\r' || c == ' ' || c
        == '\u{85}' || c == '\u{A0}' || c == '\u{1680}' || ('\u{2000}' <= c && c <= '\u{200A}')
        || c == '\u{2028}' || c == '\u{2029}' || c == '\u{202F}' || c == '\u{205F}' || c
        == '\u{3000}'
}

/// Splits `s` at every `sep`.
pub fn split_chars(s: &[char], sep: char) -> (r: Vec<Vec<char>>)
    ensures
        r@.len() == split(s@, sep).len(),
        forall|k: int| 0 <= k < r@.len() ==> #[trigger] r@[k]@ == split(s@, sep)[k],
{
    let mut done: Vec<Vec<char>> = Vec::new();
    let mut cur: Vec<char> = Vec::new();
    let mut i: usize = 0;
    proof {
        assert(s@.take(0) =~= Seq::<char>::empty());
    }
    while i < s.len()
        invariant
            0 <= i <= s@.len(),
            done@.len() + 1 == split(s@.take(i as int), sep).len(),
            forall|k: int| 0 <= k < done@.len() ==> #[trigger] done@[k]@ == split(s@.take(i as int), sep)[k],
            cur@ == split(s@.take(i as int), sep).last(),
        decreases s@.len() - i,
    {
        let c = s[i];
        proof {
            let t = s@.take(i as int + 1);
            assert(t.drop_last() =~= s@.take(i as int));
            assert(t.last() == c);
            lemma_split_nonempty(s@.take(i as int), sep);
        }
        if c == sep {
            done.push(cur);
            cur = Vec::new();
        } else {
            cur.push(c);
        }
        i = i + 1;
    }
    proof {
        assert(s@.take(s@.len() as int) =~= s@);
    }
    done.push(cur);
    done
}

/// `s` without leading and trailing whitespace.
pub fn trim_chars(s: &[char]) -> (r: Vec<char>)
    ensures
        r@ == trim(s@),
{
    let n = s.len();
    let mut a: usize = 0;
    proof {
        assert(s@.skip(0) =~= s@);
    }
    while a < n && white(s[a])
        invariant
            0 <= a <= n,
            n == s@.len(),
            lead_white(s@) == a + lead_white(s@.skip(a as int)),
        decreases n - a,
    {
        proof {
            assert(s@.skip(a as int).drop_first() =~= s@.skip(a as int + 1));
        }
        a = a + 1;
    }
    proof {
        assert(lead_white(s@.skip(a as int)) == 0);
    }
    let ghost t = s@.skip(a as int);
    let mut b: usize = n;
    proof {
        assert(t.take(n - a) =~= t);
    }
    while b > a && white(s[b - 1])
        invariant
            a <= b <= n,
            n == s@.len(),
            t == s@.skip(a as int),
            trail_white(t) == (n - b) + trail_white(t.take(b - a)),
        decreases b - a,
    {
        proof {
            assert(t.take(b - a).drop_last() =~= t.take(b - 1 - a));
        }
        b = b - 1;
    }
    proof {
        assert(trail_white(t.take(b - a)) == 0);
    }
    let mut r: Vec<char> = Vec::new();
    let mut j: usize = a;
    while j < b
        invariant
            a <= j <= b <= n,
            n == s@.len(),
            r@ == s@.subrange(a as int, j as int),
        decreases b - j,
    {
        r.push(s[j]);
        proof {
            assert(r@ =~= s@.subrange(a as int, j + 1));
        }
        j = j + 1;
    }
    proof {
        assert(r@ =~= t.take(t.len() - trail_white(t)));
    }
    r
}

/// `l` without a final carriage return.
pub fn strip_cr_chars(l: &[char]) -> (r: Vec<char>)
    ensures
        r@ == strip_cr(l@),
{
    let n: usize = if l.len() > 0 && l[l.len() - 1] == '\r' {
        l.len() - 1
    } else {
        l.len()
    };
    let mut r: Vec<char> = Vec::new();
    let mut j: usize = 0;
    while j < n
        invariant
            0 <= j <= n <= l@.len(),
            r@ == l@.take(j as int),
        decreases n - j,
    {
        r.push(l[j]);
        proof {
            assert(r@ =~= l@.take(j + 1));
        }
        j = j + 1;
    }
    proof {
        assert(r@ =~= strip_cr(l@));
    }
    r
}

/// The lines of a text, as `lines` describes them.
pub fn text_lines(s: &[char]) -> (r: Vec<Vec<char>>)
    ensures
        r@.len() == lines(s@).len(),
        forall|k: int| 0 <= k < r@.len() ==> #[trigger] r@[k]@ == lines(s@)[k],
{
    let parts = split_chars(s, '\n');
    let ghost ps = split(s@, '\n');
    let mut n: usize = parts.len();
    proof {
        assert(ps.take(n as int) =~= ps);
    }
    while n > 0 && strip_cr_chars(&parts[n - 1]).len() == 0
        invariant
            0 <= n <= parts@.len() == ps.len(),
            forall|k: int| 0 <= k < parts@.len() ==> #[trigger] parts@[k]@ == ps[k],
            kept_len(ps) == kept_len(ps.take(n as int)),
        decreases n,
    {
        proof {
            assert(ps.take(n as int).drop_last() =~= ps.take(n - 1));
        }
        n = n - 1;
    }
    proof {
        lemma_kept_len_bound(ps);
    }
    let mut r: Vec<Vec<char>> = Vec::new();
    let mut i: usize = 0;
    while i < n
        invariant
            0 <= i <= n <= parts@.len() == ps.len(),
            n == kept_len(ps),
            forall|k: int| 0 <= k < parts@.len() ==> #[trigger] parts@[k]@ == ps[k],
            r@.len() == i,
            forall|k: int| 0 <= k < i ==> #[trigger] r@[k]@ == strip_cr(ps[k]),
        decreases n - i,
    {
        r.push(strip_cr_chars(&parts[i]));
        i = i + 1;
    }
    r
}

} // verus!
