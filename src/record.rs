//! The two record files: the card deck (`category \t front \t back` per line)
//! and the result log (`timestamp \t outcome \t category \t front \t back`).
use crate::calendar::{parse_timestamp, shaped, shaped_below_leap, spelled, Timestamp};
use crate::calendar::lemma_text_spelled;
use crate::text::{
    chars_of, is_white, kept_len, lemma_join_free, lemma_split_join, lemma_split_single,
    lemma_trim_solid, lines, split, split_chars, strip_cr, string_of, text_lines, trim, trim_chars,
};
use vstd::prelude::*;

verus! {

/// One question and its answer, under a category.
#[derive(Clone, Debug, PartialEq, Eq)]
pub struct Card {
    pub category: String,
    pub front: String,
    pub back: String,
}

/// How a guess was judged.
#[derive(Clone, Copy, Debug, PartialEq, Eq, Structural)]
pub enum Outcome {
    Correct,
    Incorrect,
}

/// One judged question of a quiz, as the result log keeps it.
#[derive(Clone, Debug, PartialEq, Eq)]
pub struct ResultEntry {
    pub timestamp: Timestamp,
    pub outcome: Outcome,
    pub card: Card,
}

/// Why a command could not be carried out.
#[derive(Clone, Copy, Debug, PartialEq, Eq, Structural)]
pub enum FlashError {
    /// A file could not be opened, read or appended to.
    FileUnavailable,
    /// A line lacks fields, or a field does not parse.
    MalformedRecord,
    /// A quiz size that is not positive, or a quiz over an empty deck.
    InvalidCount,
    /// Statistics asked of a log without entries.
    EmptyLog,
    /// No editor is configured.
    MissingEditor,
}

/// The card that the first three fields of a line give, each trimmed.
pub open spec fn card_matches(f: Seq<Seq<char>>, c: Card) -> bool {
    &&& f.len() >= 3
    &&& c.category@ == trim(f[0])
    &&& c.front@ == trim(f[1])
    &&& c.back@ == trim(f[2])
}

/// Every line of a deck text has at least three tab-separated fields.
pub open spec fn deck_ok(s: Seq<char>) -> bool {
    forall|i: int| 0 <= i < lines(s).len() ==> split(#[trigger] lines(s)[i], '\t').len() >= 3
}

/// What reading the deck text `s` gives: cards exactly when every line has
/// three fields, one card per line from its trimmed fields, and otherwise a
/// malformed record.
pub open spec fn deck_result(s: Seq<char>, r: Result<Vec<Card>, FlashError>) -> bool {
    &&& r is Ok <==> deck_ok(s)
    &&& r matches Err(e) ==> e == FlashError::MalformedRecord
    &&& r matches Ok(v) ==> v@.len() == lines(s).len() && forall|i: int|
        0 <= i < v@.len() ==> card_matches(split(lines(s)[i], '\t'), #[trigger] v@[i])
}

/// Reading an unchanged deck text twice gives the same result: both fail
/// alike, or both give cards that agree one by one in every field.
pub proof fn lemma_deck_read_repeatable(
    s: Seq<char>,
    r1: Result<Vec<Card>, FlashError>,
    r2: Result<Vec<Card>, FlashError>,
)
    requires
        deck_result(s, r1),
        deck_result(s, r2),
    ensures
        r1 is Ok <==> r2 is Ok,
        r1 is Err ==> r1 == r2,
        r1 matches Ok(v1) ==> r2 matches Ok(v2) && v1@.len() == v2@.len() && forall|i: int|
            0 <= i < v1@.len() ==> crate::sampler::same_card(#[trigger] v1@[i], v2@[i]),
{
    if r1 is Ok {
        let v1 = r1->Ok_0;
        let v2 = r2->Ok_0;
        assert forall|i: int| 0 <= i < v1@.len() implies crate::sampler::same_card(
            #[trigger] v1@[i],
            v2@[i],
        ) by {
            assert(card_matches(split(lines(s)[i], '\t'), v1@[i]));
            assert(card_matches(split(lines(s)[i], '\t'), v2@[i]));
        }
    }
}

fn card_from_fields(f: &Vec<Vec<char>>, at: usize) -> (c: Card)
    requires
        at as int + 3 <= f@.len(),
    ensures
        c.category@ == trim(f@[at as int]@),
        c.front@ == trim(f@[at + 1]@),
        c.back@ == trim(f@[at + 2]@),
{
    assert(at + 2 < f.len());
    Card {
        category: string_of(&trim_chars(&f[at])),
        front: string_of(&trim_chars(&f[at + 1])),
        back: string_of(&trim_chars(&f[at + 2])),
    }
}

/// Reads a deck: one card per line, trailing empty lines ignored. A line
/// with fewer than three fields makes the whole deck malformed; fields past
/// the third are ignored.
pub fn parse_deck(text: &str) -> (r: Result<Vec<Card>, FlashError>)
    ensures
        deck_result(text@, r),
{
    let cs = chars_of(text);
    let ls = text_lines(&cs);
    let mut cards: Vec<Card> = Vec::new();
    let mut i: usize = 0;
    while i < ls.len()
        invariant
            0 <= i <= ls@.len() == lines(text@).len(),
            cs@ == text@,
            forall|k: int| 0 <= k < ls@.len() ==> #[trigger] ls@[k]@ == lines(text@)[k],
            cards@.len() == i,
            forall|k: int| 0 <= k < i ==> split(#[trigger] lines(text@)[k], '\t').len() >= 3,
            forall|k: int|
                0 <= k < i ==> card_matches(split(lines(text@)[k], '\t'), #[trigger] cards@[k]),
        decreases ls@.len() - i,
    {
        let f = split_chars(&ls[i], '\t');
        if f.len() < 3 {
            return Err(FlashError::MalformedRecord);
        }
        let card = card_from_fields(&f, 0);
        cards.push(card);
        i = i + 1;
    }
    Ok(cards)
}

/// The outcome that a log label names: `correct` or `incorrect`.
pub open spec fn outcome_of(label: Seq<char>) -> Option<Outcome> {
    if label == seq!['c', 'o', 'r', 'r', 'e', 'c', 't'] {
        Some(Outcome::Correct)
    } else if label == seq!['i', 'n', 'c', 'o', 'r', 'r', 'e', 'c', 't'] {
        Some(Outcome::Incorrect)
    } else {
        None
    }
}

/// The label that the log writes for an outcome.
pub open spec fn label_of(o: Outcome) -> Seq<char> {
    match o {
        Outcome::Correct => seq!['c', 'o', 'r', 'r', 'e', 'c', 't'],
        Outcome::Incorrect => seq!['i', 'n', 'c', 'o', 'r', 'r', 'e', 'c', 't'],
    }
}

/// A log line has five fields and its second one names an outcome.
pub open spec fn log_fields_ok(l: Seq<char>) -> bool {
    let f = split(l, '\t');
    f.len() >= 5 && outcome_of(trim(f[1])) is Some
}

/// A log line whose timestamp has the exact shape `DDDD-DD-DD DD:DD:DD`
/// with seconds below 60.
pub open spec fn log_time_shaped(l: Seq<char>) -> bool {
    let ts = trim(split(l, '\t')[0]);
    shaped(ts) && spelled(ts).second < 60
}

/// A log line that is read without fault: five fields, an outcome label and
/// a timestamp of the exact shape that names an existing day and time.
pub open spec fn log_line_ok(l: Seq<char>) -> bool {
    log_fields_ok(l) && log_time_shaped(l) && spelled(trim(split(l, '\t')[0])).valid()
}

/// `e` is what a log line holds: its outcome, its card from the trimmed
/// fields, and the timestamp that its first field spells.
pub open spec fn entry_matches(l: Seq<char>, e: ResultEntry) -> bool {
    let f = split(l, '\t');
    &&& log_fields_ok(l)
    &&& outcome_of(trim(f[1])) == Some(e.outcome)
    &&& card_matches(f.skip(2), e.card)
    &&& e.timestamp == spelled(trim(f[0]))
    &&& e.timestamp.printable()
}

/// What reading the log text `s` gives: entries exactly when every line is
/// read without fault, one per line as the line holds it, and otherwise a
/// malformed record.
pub open spec fn log_result(s: Seq<char>, r: Result<Vec<ResultEntry>, FlashError>) -> bool {
    &&& r is Ok <==> forall|i: int| 0 <= i < lines(s).len() ==> log_line_ok(#[trigger] lines(s)[i])
    &&& r matches Err(e) ==> e == FlashError::MalformedRecord
    &&& r matches Ok(v) ==> v@.len() == lines(s).len() && forall|i: int|
        0 <= i < v@.len() ==> entry_matches(lines(s)[i], #[trigger] v@[i])
}

fn outcome_from(label: &Vec<char>) -> (r: Option<Outcome>)
    ensures
        r == outcome_of(label@),
{
    let correct: Vec<char> = vec!['c', 'o', 'r', 'r', 'e', 'c', 't'];
    let incorrect: Vec<char> = vec!['i', 'n', 'c', 'o', 'r', 'r', 'e', 'c', 't'];
    if chars_equal(label, &correct) {
        proof {
            assert(correct@ =~= seq!['c', 'o', 'r', 'r', 'e', 'c', 't']);
        }
        Some(Outcome::Correct)
    } else if chars_equal(label, &incorrect) {
        proof {
            assert(incorrect@ =~= seq!['i', 'n', 'c', 'o', 'r', 'r', 'e', 'c', 't']);
            assert(label@ != seq!['c', 'o', 'r', 'r', 'e', 'c', 't']);
        }
        Some(Outcome::Incorrect)
    } else {
        proof {
            assert(correct@ =~= seq!['c', 'o', 'r', 'r', 'e', 'c', 't']);
            assert(incorrect@ =~= seq!['i', 'n', 'c', 'o', 'r', 'r', 'e', 'c', 't']);
        }
        None
    }
}

fn chars_equal(a: &Vec<char>, b: &Vec<char>) -> (r: bool)
    ensures
        r == (a@ == b@),
{
    if a.len() != b.len() {
        return false;
    }
    let mut i: usize = 0;
    while i < a.len()
        invariant
            0 <= i <= a@.len() == b@.len(),
            forall|k: int| 0 <= k < i ==> a@[k] == b@[k],
        decreases a@.len() - i,
    {
        if a[i] != b[i] {
            return false;
        }
        i = i + 1;
    }
    proof {
        assert(a@ =~= b@);
    }
    true
}

/// Reads a result log: one entry per line, trailing empty lines ignored. A
/// line that lacks fields, has an unknown outcome label or a timestamp that
/// is not an existing day and time written `YYYY-MM-DD HH:MM:SS` makes the
/// whole log malformed.
pub fn parse_log(text: &str) -> (r: Result<Vec<ResultEntry>, FlashError>)
    ensures
        log_result(text@, r),
{
    let cs = chars_of(text);
    let ls = text_lines(&cs);
    let mut entries: Vec<ResultEntry> = Vec::new();
    let mut i: usize = 0;
    while i < ls.len()
        invariant
            0 <= i <= ls@.len() == lines(text@).len(),
            cs@ == text@,
            forall|k: int| 0 <= k < ls@.len() ==> #[trigger] ls@[k]@ == lines(text@)[k],
            entries@.len() == i,
            forall|k: int| 0 <= k < i ==> log_line_ok(#[trigger] lines(text@)[k]),
            forall|k: int| 0 <= k < i ==> entry_matches(lines(text@)[k], #[trigger] entries@[k]),
        decreases ls@.len() - i,
    {
        let ghost l = lines(text@)[i as int];
        let f = split_chars(&ls[i], '\t');
        if f.len() < 5 {
            return Err(FlashError::MalformedRecord);
        }
        let outcome = match outcome_from(&trim_chars(&f[1])) {
            Some(o) => o,
            None => {
                return Err(FlashError::MalformedRecord);
            },
        };
        let stamp_chars = trim_chars(&f[0]);
        if !shaped_below_leap(&stamp_chars) {
            return Err(FlashError::MalformedRecord);
        }
        let stamp = string_of(&stamp_chars);
        let timestamp = match parse_timestamp(stamp.as_str()) {
            Some(t) => t,
            None => {
                return Err(FlashError::MalformedRecord);
            },
        };
        proof {
            crate::calendar::lemma_shaped_year(trim(split(l, '\t')[0]));
        }
        let card = card_from_fields(&f, 2);
        proof {
            assert(split(l, '\t').skip(2)[0] == split(l, '\t')[2]);
            assert(split(l, '\t').skip(2)[1] == split(l, '\t')[3]);
            assert(split(l, '\t').skip(2)[2] == split(l, '\t')[4]);
        }
        let entry = ResultEntry { timestamp, outcome, card };
        entries.push(entry);
        i = i + 1;
    }
    Ok(entries)
}

/// The line that the log keeps for an entry:
/// `timestamp \t outcome \t category \t front \t back \n`.
pub open spec fn entry_text(e: ResultEntry) -> Seq<char> {
    entry_fields(e) + seq!['\n']
}

pub open spec fn entry_fields(e: ResultEntry) -> Seq<char> {
    e.timestamp.text() + seq!['\t'] + label_of(e.outcome) + seq!['\t'] + e.card.category@
        + seq!['\t'] + e.card.front@ + seq!['\t'] + e.card.back@
}

/// A field that the record files keep as it is: no surrounding whitespace,
/// no tab and no line break.
pub open spec fn clean_field(f: Seq<char>) -> bool {
    trim(f) == f && !f.contains('\t') && !f.contains('\n')
}

/// Two entries agree in every field.
pub open spec fn same_entry(a: ResultEntry, b: ResultEntry) -> bool {
    &&& a.timestamp == b.timestamp
    &&& a.outcome == b.outcome
    &&& a.card.category@ == b.card.category@
    &&& a.card.front@ == b.card.front@
    &&& a.card.back@ == b.card.back@
}

fn push_all(v: &mut Vec<char>, s: &[char])
    ensures
        final(v)@ == old(v)@ + s@,
{
    let mut i: usize = 0;
    while i < s.len()
        invariant
            0 <= i <= s@.len(),
            v@ == old(v)@ + s@.take(i as int),
        decreases s@.len() - i,
    {
        v.push(s[i]);
        proof {
            assert(s@.take(i + 1) =~= s@.take(i as int).push(s@[i as int]));
        }
        i = i + 1;
    }
    proof {
        assert(s@.take(s@.len() as int) =~= s@);
    }
}

fn label_chars(o: Outcome) -> (r: Vec<char>)
    ensures
        r@ == label_of(o),
{
    let r = match o {
        Outcome::Correct => vec!['c', 'o', 'r', 'r', 'e', 'c', 't'],
        Outcome::Incorrect => vec!['i', 'n', 'c', 'o', 'r', 'r', 'e', 'c', 't'],
    };
    proof {
        assert(r@ =~= label_of(o));
    }
    r
}

/// The log line for an entry, with its final line break.
pub fn result_line(e: &ResultEntry) -> (r: String)
    requires
        e.timestamp.printable(),
    ensures
        r@ == entry_text(*e),
{
    let mut v = e.timestamp.to_text();
    v.push('\t');
    push_all(&mut v, &label_chars(e.outcome));
    v.push('\t');
    push_all(&mut v, &chars_of(e.card.category.as_str()));
    v.push('\t');
    push_all(&mut v, &chars_of(e.card.front.as_str()));
    v.push('\t');
    push_all(&mut v, &chars_of(e.card.back.as_str()));
    v.push('\n');
    proof {
        assert(v@ =~= entry_text(*e));
    }
    string_of(&v)
}

proof fn lemma_clean_text(t: Timestamp)
    requires
        t.printable(),
    ensures
        !t.text().contains('\t'),
        !t.text().contains('\n'),
        trim(t.text()) == t.text(),
{
    let s = t.text();
    lemma_text_spelled(t);
    assert(!s.contains('\t'));
    assert(!s.contains('\n'));
    lemma_trim_solid(s);
}

proof fn lemma_clean_label(o: Outcome)
    ensures
        clean_field(label_of(o)),
        outcome_of(label_of(o)) == Some(o),
{
    let s = label_of(o);
    lemma_trim_solid(s);
    assert(!s.contains('\t'));
    assert(!s.contains('\n'));
}

proof fn lemma_entry_pieces(e: ResultEntry)
    requires
        e.timestamp.printable(),
        clean_field(e.card.category@),
        clean_field(e.card.front@),
        clean_field(e.card.back@),
    ensures
        split(entry_text(e), '\n') == seq![entry_fields(e), Seq::<char>::empty()],
        strip_cr(entry_fields(e)) == entry_fields(e),
        entry_fields(e).len() >= 19,
        lines(entry_text(e)) == seq![entry_fields(e)],
        log_line_ok(entry_fields(e)),
        forall|e2: ResultEntry| #[trigger]
            entry_matches(entry_fields(e), e2) ==> same_entry(e2, e),
{
    let ts = e.timestamp.text();
    let lb = label_of(e.outcome);
    let c = e.card.category@;
    let f = e.card.front@;
    let b = e.card.back@;
    let l = entry_fields(e);
    lemma_clean_text(e.timestamp);
    lemma_clean_label(e.outcome);
    lemma_text_spelled(e.timestamp);
    // the fields
    let p1 = ts + seq!['\t'] + lb;
    let p2 = p1 + seq!['\t'] + c;
    let p3 = p2 + seq!['\t'] + f;
    lemma_split_single(ts, '\t');
    lemma_split_single(lb, '\t');
    lemma_split_single(c, '\t');
    lemma_split_single(f, '\t');
    lemma_split_single(b, '\t');
    lemma_split_join(ts, lb, '\t');
    lemma_split_join(p1, c, '\t');
    lemma_split_join(p2, f, '\t');
    lemma_split_join(p3, b, '\t');
    assert(l == p3 + seq!['\t'] + b);
    assert(split(l, '\t') =~= seq![ts, lb, c, f, b]);
    // the lines
    lemma_join_free(ts, '\t', lb, '\n');
    lemma_join_free(p1, '\t', c, '\n');
    lemma_join_free(p2, '\t', f, '\n');
    lemma_join_free(p3, '\t', b, '\n');
    lemma_split_single(l, '\n');
    lemma_split_join(l, Seq::<char>::empty(), '\n');
    assert(entry_text(e) =~= l + seq!['\n'] + Seq::<char>::empty());
    let ls = split(entry_text(e), '\n');
    assert(ls =~= seq![l, Seq::<char>::empty()]);
    assert(l.len() >= 19);
    assert(l.last() != '\r') by {
        if b.len() > 0 {
            assert(l.last() == b.last());
            assert(!is_white(b.last())) by {
                assert(b.len() > 0 && trim(b) == b);
                crate::text::lemma_trim_keeps_last(b);
            }
        } else {
            assert(l.last() == '\t');
        }
    }
    assert(strip_cr(l) == l);
    assert(ls.drop_last() =~= seq![l]);
    assert(kept_len(seq![l]) == 1);
    assert(kept_len(ls) == 1);
    assert(lines(entry_text(e)) =~= seq![l]);
    assert(split(l, '\t').skip(2) =~= seq![c, f, b]);
}

/// Writing an entry to the log and reading the log back gives the entry
/// again: its text is one line, read without fault, and whatever that line
/// is read as agrees with the entry in every field.
pub proof fn lemma_round_trip(e: ResultEntry)
    requires
        e.timestamp.printable(),
        clean_field(e.card.category@),
        clean_field(e.card.front@),
        clean_field(e.card.back@),
    ensures
        lines(entry_text(e)).len() == 1,
        log_line_ok(lines(entry_text(e))[0]),
        forall|e2: ResultEntry| #[trigger]
            entry_matches(lines(entry_text(e))[0], e2) ==> same_entry(e2, e),
{
    lemma_entry_pieces(e);
}

/// Log text that a line can be appended to: empty, or ending in a line
/// break that follows a line that is not empty.
pub open spec fn appendable(s: Seq<char>) -> bool {
    s.len() == 0 || (s.last() == '\n' && kept_len(split(s, '\n')) + 1 == split(s, '\n').len())
}

/// A line determines what it is read as.
proof fn lemma_matches_unique(l: Seq<char>, a: ResultEntry, b: ResultEntry)
    requires
        entry_matches(l, a),
        entry_matches(l, b),
    ensures
        same_entry(a, b),
{
}

proof fn lemma_lines_append(old: Seq<char>, e: ResultEntry)
    requires
        appendable(old),
        e.timestamp.printable(),
        clean_field(e.card.category@),
        clean_field(e.card.front@),
        clean_field(e.card.back@),
    ensures
        lines(old + entry_text(e)) == lines(old).push(entry_fields(e)),
{
    lemma_entry_pieces(e);
    let l = entry_fields(e);
    let t = entry_text(e);
    if old.len() == 0 {
        assert(old + t =~= t);
        let e0 = Seq::<char>::empty();
        assert(split(old, '\n') =~= seq![e0]);
        assert(strip_cr(e0) =~= e0);
        assert(seq![e0].drop_last() =~= Seq::<Seq<char>>::empty());
        assert(kept_len(Seq::<Seq<char>>::empty()) == 0);
        assert(kept_len(split(old, '\n')) == 0);
        assert(lines(old) =~= Seq::<Seq<char>>::empty());
        assert(lines(old).push(l) =~= seq![l]);
    } else {
        let o = old.drop_last();
        let e0 = Seq::<char>::empty();
        assert(old =~= o + seq!['\n'] + e0);
        lemma_split_join(o, e0, '\n');
        let p = split(o, '\n');
        assert(split(e0, '\n') =~= seq![e0]);
        assert(split(old, '\n') =~= p.push(e0));
        assert(p.push(e0).drop_last() =~= p);
        assert(kept_len(p) == p.len());
        assert(old + t =~= o + seq!['\n'] + t);
        lemma_split_join(o, t, '\n');
        let q = split(old + t, '\n');
        assert(q =~= p.push(l).push(e0));
        assert(q.drop_last() =~= p.push(l));
        assert(p.push(l).drop_last() =~= p);
        assert(kept_len(p.push(l)) == p.len() + 1);
        assert(kept_len(q) == p.len() + 1);
        assert(lines(old) =~= p.map_values(|x: Seq<char>| strip_cr(x)));
        assert(lines(old + t) =~= lines(old).push(l));
    }
}

proof fn lemma_append_appendable(old: Seq<char>, e: ResultEntry)
    requires
        appendable(old),
        writable(e),
    ensures
        appendable(old + entry_text(e)),
{
    lemma_entry_pieces(e);
    let l = entry_fields(e);
    let t = entry_text(e);
    let e0 = Seq::<char>::empty();
    assert(strip_cr(e0) =~= e0);
    if old.len() == 0 {
        assert(old + t =~= t);
        assert(seq![l, e0].drop_last() =~= seq![l]);
        assert(seq![l].drop_last() =~= Seq::<Seq<char>>::empty());
        assert(kept_len(seq![l]) == 1);
    } else {
        let o = old.drop_last();
        assert(old + t =~= o + seq!['\n'] + t);
        lemma_split_join(o, t, '\n');
        let p = split(o, '\n');
        let q = split(old + t, '\n');
        assert(q =~= p.push(l).push(e0));
        assert(q.drop_last() =~= p.push(l));
        assert(p.push(l).last() == l);
        assert(strip_cr(l).len() > 0);
        assert(kept_len(p.push(l)) == p.len() + 1);
        assert(q.last() == e0);
        assert(kept_len(q) == p.len() + 1);
    }
    assert(t.last() == '\n');
    assert((old + t).last() == t.last());
}

/// Appending an entry's line to a log that reads without fault gives a log
/// that reads as the old entries, unchanged and in order, followed by the
/// new entry.
pub proof fn lemma_append_read(
    old: Seq<char>,
    e: ResultEntry,
    before: Vec<ResultEntry>,
    after: Result<Vec<ResultEntry>, FlashError>,
)
    requires
        appendable(old),
        e.timestamp.printable(),
        clean_field(e.card.category@),
        clean_field(e.card.front@),
        clean_field(e.card.back@),
        log_result(old, Ok(before)),
        log_result(old + entry_text(e), after),
    ensures
        after is Ok,
        after matches Ok(v) ==> {
            &&& v@.len() == before@.len() + 1
            &&& forall|i: int| 0 <= i < before@.len() ==> same_entry(#[trigger] v@[i], before@[i])
            &&& same_entry(v@[before@.len() as int], e)
        },
{
    lemma_entry_pieces(e);
    lemma_lines_append(old, e);
    let n = lines(old).len();
    let ls = lines(old + entry_text(e));
    assert forall|i: int| 0 <= i < ls.len() implies log_line_ok(#[trigger] ls[i]) by {
        if i < n {
            assert(log_line_ok(lines(old)[i]));
        }
    }
    let v = after->Ok_0;
    assert forall|i: int| 0 <= i < before@.len() implies same_entry(#[trigger] v@[i], before@[i]) by {
        assert(entry_matches(ls[i], v@[i]));
        assert(entry_matches(lines(old)[i], before@[i]));
        lemma_matches_unique(ls[i], v@[i], before@[i]);
    }
    assert(entry_matches(ls[n as int], v@[n as int]));
}

/// The lines that the log gains for `es`, in order.
pub open spec fn entries_text(es: Seq<ResultEntry>) -> Seq<char>
    decreases es.len(),
{
    if es.len() == 0 {
        Seq::empty()
    } else {
        entries_text(es.drop_last()) + entry_text(es.last())
    }
}

/// An entry that the log keeps as it is.
pub open spec fn writable(e: ResultEntry) -> bool {
    &&& e.timestamp.printable()
    &&& clean_field(e.card.category@)
    &&& clean_field(e.card.front@)
    &&& clean_field(e.card.back@)
}

proof fn lemma_lines_append_all(old: Seq<char>, es: Seq<ResultEntry>)
    requires
        appendable(old),
        forall|j: int| 0 <= j < es.len() ==> writable(#[trigger] es[j]),
    ensures
        lines(old + entries_text(es)) == lines(old) + es.map_values(|e: ResultEntry| entry_fields(e)),
        appendable(old + entries_text(es)),
    decreases es.len(),
{
    if es.len() == 0 {
        assert(old + entries_text(es) =~= old);
        assert(lines(old) + es.map_values(|e: ResultEntry| entry_fields(e)) =~= lines(old));
    } else {
        let init = es.drop_last();
        let e = es.last();
        assert(writable(es[es.len() - 1]));
        lemma_lines_append_all(old, init);
        let mid = old + entries_text(init);
        lemma_lines_append(mid, e);
        lemma_append_appendable(mid, e);
        assert(old + entries_text(es) =~= mid + entry_text(e));
        assert(lines(old) + es.map_values(|e: ResultEntry| entry_fields(e)) =~= (lines(old)
            + init.map_values(|e: ResultEntry| entry_fields(e))).push(entry_fields(e)));
    }
}

/// Over a quiz session, appending the line of each recorded entry, in the
/// order recorded, to a log that reads without fault gives a log that reads
/// as the old entries, unchanged, followed by exactly the new entries in
/// that order.
pub proof fn lemma_session_log(
    old: Seq<char>,
    es: Seq<ResultEntry>,
    before: Vec<ResultEntry>,
    after: Result<Vec<ResultEntry>, FlashError>,
)
    requires
        appendable(old),
        forall|j: int| 0 <= j < es.len() ==> writable(#[trigger] es[j]),
        log_result(old, Ok(before)),
        log_result(old + entries_text(es), after),
    ensures
        after is Ok,
        after matches Ok(v) ==> {
            &&& v@.len() == before@.len() + es.len()
            &&& forall|i: int| 0 <= i < before@.len() ==> same_entry(#[trigger] v@[i], before@[i])
            &&& forall|j: int|
                0 <= j < es.len() ==> same_entry(#[trigger] v@[before@.len() + j], es[j])
        },
{
    lemma_lines_append_all(old, es);
    let n = lines(old).len();
    let ls = lines(old + entries_text(es));
    assert forall|i: int| 0 <= i < ls.len() implies log_line_ok(#[trigger] ls[i]) by {
        if i < n {
            assert(log_line_ok(lines(old)[i]));
        } else {
            lemma_entry_pieces(es[i - n]);
        }
    }
    let v = after->Ok_0;
    assert forall|i: int| 0 <= i < before@.len() implies same_entry(#[trigger] v@[i], before@[i]) by {
        assert(entry_matches(ls[i], v@[i]));
        assert(entry_matches(lines(old)[i], before@[i]));
        lemma_matches_unique(ls[i], v@[i], before@[i]);
    }
    assert forall|j: int| 0 <= j < es.len() implies same_entry(
        #[trigger] v@[before@.len() + j],
        es[j],
    ) by {
        lemma_entry_pieces(es[j]);
        assert(entry_matches(ls[n + j], v@[n + j]));
    }
}

} // verus!
