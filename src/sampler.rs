//! Random selection of the cards for a quiz, with replacement.
use crate::record::{Card, FlashError};
use rand::seq::SliceRandom;
use vstd::prelude::*;

verus! {

/// Two cards agree in every field.
pub open spec fn same_card(a: Card, b: Card) -> bool {
    a.category@ == b.category@ && a.front@ == b.front@ && a.back@ == b.back@
}

/// `c` agrees with some card of `deck`.
pub open spec fn drawn_from(c: Card, deck: Seq<Card>) -> bool {
    exists|j: int| 0 <= j < deck.len() && same_card(c, #[trigger] deck[j])
}

/// Relies on `rand::seq::SliceRandom::choose` with the thread-local
/// generator: one element of the slice, or nothing for an empty slice.
#[verifier::external_body]
fn choose_card(deck: &[Card]) -> (r: Option<&Card>)
    ensures
        r is Some <==> deck@.len() > 0,
        r matches Some(c) ==> deck@.contains(*c),
{
    deck.choose(&mut rand::thread_rng())
}

impl Card {
    /// A card with the same fields.
    pub fn duplicate(&self) -> (r: Card)
        ensures
            same_card(r, *self),
    {
        Card { category: self.category.clone(), front: self.front.clone(), back: self.back.clone() }
    }
}

/// `count` cards drawn one at a time, each uniformly from the whole deck, so
/// that a card may come more than once. A count that is not positive, or an
/// empty deck, is refused.
pub fn sample(deck: &Vec<Card>, count: i64) -> (r: Result<Vec<Card>, FlashError>)
    ensures
        r is Err <==> count <= 0 || deck@.len() == 0,
        r matches Err(e) ==> e == FlashError::InvalidCount,
        r matches Ok(v) ==> v@.len() == count && forall|i: int|
            0 <= i < v@.len() ==> drawn_from(#[trigger] v@[i], deck@),
{
    if count <= 0 || deck.len() == 0 {
        return Err(FlashError::InvalidCount);
    }
    let mut picked: Vec<Card> = Vec::new();
    let mut i: i64 = 0;
    while i < count
        invariant
            0 <= i <= count,
            deck@.len() > 0,
            picked@.len() == i,
            forall|k: int| 0 <= k < picked@.len() ==> drawn_from(#[trigger] picked@[k], deck@),
        decreases count - i,
    {
        match choose_card(deck.as_slice()) {
            Some(c) => {
                let d = c.duplicate();
                proof {
                    let j = choose|j: int| 0 <= j < deck@.len() && deck@[j] == *c;
                    assert(same_card(d, deck@[j]));
                }
                picked.push(d);
            },
            None => {},
        }
        i = i + 1;
    }
    Ok(picked)
}

} // verus!
