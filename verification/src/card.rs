//! Modifier cards: a duration in ticks and a signed delta for each local resource.

use crate::config::LOCAL_ATTRIBUTES_SIZE;
use crate::word::{
    byte_to_signed, byte_to_unsigned, bytes_to_word, lemma_bytes_of_word_of,
    lemma_word_of_bytes_of, signed_byte, unsigned_byte, word_of, word_to_bytes,
};
use vstd::prelude::*;

verus! {

/// A modifier card: applying it adds `attributes` to the local resources
/// of its owner, and takes `duration` ticks.
#[derive(Clone, Copy, Debug, PartialEq, Eq)]
pub struct Card {
    pub duration: u64,
    pub attributes: [i8; 8],
}

/// The bit patterns of eight signed deltas, as unsigned bytes.
pub open spec fn delta_bytes(attributes: Seq<i8>) -> Seq<u8> {
    Seq::new(8, |i: int| unsigned_byte(attributes[i]))
}

impl Card {
    pub fn new(duration: u64, attributes: [i8; LOCAL_ATTRIBUTES_SIZE]) -> (card: Self)
        ensures
            card.duration == duration,
            card.attributes == attributes,
    {
        Card { duration, attributes }
    }

    /// The two storage words of a card: its duration, then its deltas as
    /// little-endian bytes.
    pub open spec fn words(&self) -> Seq<u64> {
        seq![self.duration, word_of(delta_bytes(self.attributes@))]
    }

    /// Appends the card's two words to `data`.
    pub fn to_data(&self, data: &mut Vec<u64>)
        ensures
            final(data)@ == old(data)@ + self.words(),
    {
        let mut bytes: [u8; 8] = [0u8;8];
        let mut i: usize = 0;
        while i < 8
            invariant
                i <= 8,
                forall|j: int| 0 <= j < i ==> bytes[j] == unsigned_byte(self.attributes[j]),
            decreases 8 - i,
        {
            bytes[i] = byte_to_unsigned(self.attributes[i]);
            i += 1;
        }
        assert(bytes@ =~= delta_bytes(self.attributes@));
        data.push(self.duration);
        data.push(bytes_to_word(&bytes));
        assert(data@ =~= old(data)@ + self.words());
    }

    /// Reads a card from the two words of `data` that begin at `start`.
    ///
    /// Succeeds exactly when both words are there; the card is then the one
    /// whose words they are, and the position after them is returned with it.
    pub fn from_data(data: &Vec<u64>, start: usize) -> (r: Option<(Self, usize)>)
        ensures
            r.is_some() <==> start + 2 <= data@.len(),
            r matches Some((card, next)) ==> {
                &&& next == start + 2
                &&& card.words() == data@.subrange(start as int, start + 2)
            },
    {
        if data.len() < 2 || start > data.len() - 2 {
            return None;
        }
        let duration = data[start];
        let bytes = word_to_bytes(data[start + 1]);
        let mut attributes: [i8; 8] = [0i8;8];
        let mut i: usize = 0;
        while i < 8
            invariant
                i <= 8,
                forall|j: int| 0 <= j < i ==> attributes[j] == signed_byte(bytes[j]),
            decreases 8 - i,
        {
            attributes[i] = byte_to_signed(bytes[i]);
            i += 1;
        }
        let card = Card { duration, attributes };
        proof {
            assert(delta_bytes(attributes@) =~= bytes@);
            lemma_word_of_bytes_of(data[start as int + 1]);
            assert(card.words() =~= data@.subrange(start as int, start + 2));
        }
        Some((card, start + 2))
    }
}

/// Two cards with the same storage words are the same card.
pub proof fn lemma_card_words_injective(a: Card, b: Card)
    requires
        a.words() == b.words(),
    ensures
        a == b,
{
    assert(a.duration == a.words()[0]);
    assert(b.duration == b.words()[0]);
    assert(word_of(delta_bytes(a.attributes@)) == a.words()[1]);
    assert(word_of(delta_bytes(b.attributes@)) == b.words()[1]);
    lemma_bytes_of_word_of(delta_bytes(a.attributes@));
    lemma_bytes_of_word_of(delta_bytes(b.attributes@));
    assert forall|i: int| 0 <= i < 8 implies a.attributes[i] == b.attributes[i] by {
        assert(delta_bytes(a.attributes@)[i] == delta_bytes(b.attributes@)[i]);
    }
    assert(a.attributes =~= b.attributes);
}

/// Storing a card and reading the words back gives the same card: `read` is
/// a card whose words are the two that `card`'s own words, with anything
/// after them, begin with.
pub proof fn lemma_card_round_trip(card: Card, tail: Seq<u64>, read: Card)
    requires
        read.words() == (card.words() + tail).subrange(0, 2),
    ensures
        read == card,
{
    assert((card.words() + tail).subrange(0, 2) =~= card.words());
    lemma_card_words_injective(read, card);
}

/// The four cards that every player starts with.
pub open spec fn default_cards_spec() -> Seq<Card> {
    seq![
        Card { duration: 20, attributes: [(-10) as i8, (-10) as i8, 20, 0, 0, 0, 0, 0] },
        Card { duration: 40, attributes: [30, 0, (-10) as i8, 0, 0, 0, 0, 0] },
        Card { duration: 40, attributes: [0, 30, (-10) as i8, 0, 0, 0, 0, 0] },
        Card { duration: 40, attributes: [10, 0, (-30) as i8, 0, 20, 0, 0, 0] },
    ]
}

/// The four cards that every player starts with.
pub fn default_cards() -> (cards: Vec<Card>)
    ensures
        cards@ == default_cards_spec(),
{
    let mut cards: Vec<Card> = Vec::new();
    cards.push(Card::new(20, [-10, -10, 20, 0, 0, 0, 0, 0]));
    cards.push(Card::new(40, [30, 0, -10, 0, 0, 0, 0, 0]));
    cards.push(Card::new(40, [0, 30, -10, 0, 0, 0, 0, 0]));
    cards.push(Card::new(40, [10, 0, -30, 0, 20, 0, 0, 0]));
    assert(cards@ =~= default_cards_spec());
    cards
}

/// Display names of the default cards, in order.
pub fn card_names() -> (names: Vec<&'static str>)
    ensures
        names@ == seq!["Biogen", "Crystara", "AstroMine", "CrystaBloom"],
{
    let mut names: Vec<&'static str> = Vec::new();
    names.push("Biogen");
    names.push("Crystara");
    names.push("AstroMine");
    names.push("CrystaBloom");
    assert(names@ =~= seq!["Biogen", "Crystara", "AstroMine", "CrystaBloom"]);
    names
}

} // verus!
