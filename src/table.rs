//! The column-aligned listing of a deck.
use crate::record::Card;
use crate::text::{chars_of, string_of};
use vstd::prelude::*;

verus! {

/// `s` followed by spaces up to `width` characters; longer text is kept whole.
pub open spec fn padded(s: Seq<char>, width: int) -> Seq<char> {
    if s.len() >= width {
        s
    } else {
        s + Seq::new((width - s.len()) as nat, |i: int| ' ')
    }
}

/// Length of the longest category of `cards`, 0 for none.
pub open spec fn widest_category(cards: Seq<Card>) -> nat
    decreases cards.len(),
{
    if cards.len() == 0 {
        0
    } else {
        let w = widest_category(cards.drop_last());
        let l = cards.last().category@.len();
        if l > w {
            l
        } else {
            w
        }
    }
}

/// Length of the longest front of `cards`, 0 for none.
pub open spec fn widest_front(cards: Seq<Card>) -> nat
    decreases cards.len(),
{
    if cards.len() == 0 {
        0
    } else {
        let w = widest_front(cards.drop_last());
        let l = cards.last().front@.len();
        if l > w {
            l
        } else {
            w
        }
    }
}

/// One row of the listing: two padded columns, two spaces apart, then the third.
pub open spec fn row(a: Seq<char>, b: Seq<char>, c: Seq<char>, wa: int, wb: int) -> Seq<char> {
    padded(a, wa) + seq![' ', ' '] + padded(b, wb) + seq![' ', ' '] + c
}

/// `s` padded with spaces to at least `width` characters.
pub fn fixed_width(s: &str, width: usize) -> (r: Vec<char>)
    ensures
        r@ == padded(s@, width as int),
{
    let mut v = chars_of(s);
    let n = v.len();
    while v.len() < width
        invariant
            n == s@.len(),
            n <= v@.len(),
            v@.len() <= width || v@.len() == n,
            v@ == s@ + Seq::new((v@.len() - n) as nat, |i: int| ' '),
        decreases width - v@.len(),
    {
        v.push(' ');
        proof {
            assert(v@ =~= s@ + Seq::new((v@.len() - n) as nat, |i: int| ' '));
        }
    }
    proof {
        if n >= width {
            assert(v@ =~= s@);
        }
    }
    v
}

/// The widths of the category and front columns.
pub fn column_widths(cards: &Vec<Card>) -> (r: (usize, usize))
    ensures
        r.0 == widest_category(cards@),
        r.1 == widest_front(cards@),
{
    let mut wc: usize = 0;
    let mut wf: usize = 0;
    let mut i: usize = 0;
    while i < cards.len()
        invariant
            0 <= i <= cards@.len(),
            wc == widest_category(cards@.take(i as int)),
            wf == widest_front(cards@.take(i as int)),
        decreases cards@.len() - i,
    {
        proof {
            assert(cards@.take(i + 1).drop_last() =~= cards@.take(i as int));
        }
        let lc = chars_of(cards[i].category.as_str()).len();
        let lf = chars_of(cards[i].front.as_str()).len();
        if lc > wc {
            wc = lc;
        }
        if lf > wf {
            wf = lf;
        }
        i = i + 1;
    }
    proof {
        assert(cards@.take(cards@.len() as int) =~= cards@);
    }
    (wc, wf)
}

fn row_text(a: &str, b: &str, c: &str, wa: usize, wb: usize) -> (r: String)
    ensures
        r@ == row(a@, b@, c@, wa as int, wb as int),
{
    let mut v = fixed_width(a, wa);
    v.push(' ');
    v.push(' ');
    let pb = fixed_width(b, wb);
    let mut i: usize = 0;
    let ghost start = v@;
    while i < pb.len()
        invariant
            0 <= i <= pb@.len(),
            v@ == start + pb@.take(i as int),
        decreases pb@.len() - i,
    {
        v.push(pb[i]);
        proof {
            assert(pb@.take(i + 1) =~= pb@.take(i as int).push(pb@[i as int]));
        }
        i = i + 1;
    }
    v.push(' ');
    v.push(' ');
    let cc = chars_of(c);
    let ghost mid = v@;
    let mut j: usize = 0;
    while j < cc.len()
        invariant
            0 <= j <= cc@.len(),
            v@ == mid + cc@.take(j as int),
        decreases cc@.len() - j,
    {
        v.push(cc[j]);
        proof {
            assert(cc@.take(j + 1) =~= cc@.take(j as int).push(cc@[j as int]));
        }
        j = j + 1;
    }
    proof {
        assert(pb@.take(pb@.len() as int) =~= pb@);
        assert(cc@.take(cc@.len() as int) =~= cc@);
        assert(v@ =~= row(a@, b@, c@, wa as int, wb as int));
    }
    string_of(&v)
}

/// The listing of a deck: a header line, then one line per card, with the
/// category and front columns padded to their longest entry.
pub fn table_lines(cards: &Vec<Card>) -> (r: Vec<String>)
    ensures
        r@.len() == cards@.len() + 1,
        r@[0]@ == row(
            "Category"@,
            "Front"@,
            "Back"@,
            widest_category(cards@) as int,
            widest_front(cards@) as int,
        ),
        forall|i: int|
            0 <= i < cards@.len() ==> (#[trigger] r@[i + 1])@ == row(
                cards@[i].category@,
                cards@[i].front@,
                cards@[i].back@,
                widest_category(cards@) as int,
                widest_front(cards@) as int,
            ),
{
    let (wc, wf) = column_widths(cards);
    let mut r: Vec<String> = Vec::new();
    r.push(row_text("Category", "Front", "Back", wc, wf));
    let mut i: usize = 0;
    while i < cards.len()
        invariant
            0 <= i <= cards@.len(),
            wc == widest_category(cards@),
            wf == widest_front(cards@),
            r@.len() == i + 1,
            r@[0]@ == row("Category"@, "Front"@, "Back"@, wc as int, wf as int),
            forall|k: int|
                0 <= k < i ==> (#[trigger] r@[k + 1])@ == row(
                    cards@[k].category@,
                    cards@[k].front@,
                    cards@[k].back@,
                    wc as int,
                    wf as int,
                ),
        decreases cards@.len() - i,
    {
        let c = &cards[i];
        r.push(row_text(c.category.as_str(), c.front.as_str(), c.back.as_str(), wc, wf));
        i = i + 1;
    }
    r
}

} // verus!
