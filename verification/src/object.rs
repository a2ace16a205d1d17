//! Automata: a cyclic program of cards, attribute levels, and a packed word
//! that holds the run status, the position in the program and the tick at
//! which the pending card was scheduled.

use crate::word::{
    bytes_to_word, lemma_bytes_of_word_of, lemma_word_of_bytes_of, word_of, word_to_bytes,
};
use vstd::prelude::*;

verus! {

/// Number of cards in an automaton's program.
pub const PROGRAM_SIZE: usize = 8;

/// Status of an automaton that applies its cards.
pub const STATUS_RUNNING: u64 = 0;

/// Status of an automaton that stopped because a card could not be applied.
pub const STATUS_HALTED: u64 = 1;

/// Status of an automaton whose program was replaced while it was running.
pub const STATUS_RESTARTING: u64 = 2;

/// Status of an automaton that is marked both as halted and as restart-pending.
pub const STATUS_HALTED_RESTARTING: u64 = 3;

/// Bit 57 of the packed word marks an automaton as restart-pending.
pub const RESTART_PENDING_BIT: u64 = 0x200_0000_0000_0000;

/// Ticks are stored in 48 bits.
pub const TICK_LIMIT: u64 = 0x1_0000_0000_0000;

/// Bits 56 to 63 of the packed word.
pub open spec fn status_of(info: u64) -> u64 {
    (info >> 56) & 0xff
}

/// Bits 48 to 54 of the packed word.
pub open spec fn pointer_of(info: u64) -> u64 {
    (info >> 48) & 0x7f
}

/// Bits 0 to 47 of the packed word.
pub open spec fn tick_of(info: u64) -> u64 {
    info & 0xffff_ffff_ffff
}

/// The packed word with bits 56 to 63 replaced by `status`.
pub open spec fn with_status(info: u64, status: u64) -> u64 {
    (info & 0xff_ffff_ffff_ffff) | (status << 56)
}

/// The packed word with the restart-pending bit set and every other bit as it was.
pub open spec fn marked_restarting(info: u64) -> u64 {
    info | RESTART_PENDING_BIT
}

/// The packed word of a running automaton at position `pointer`, scheduled at `tick`.
pub open spec fn running_at(pointer: u64, tick: u64) -> u64 {
    (pointer << 48) | tick
}

/// Four 16-bit attributes in one word, the first in the lowest bits.
pub open spec fn pack_attributes(a: Seq<u16>) -> u64 {
    (a[0] as u64) | ((a[1] as u64) << 16) | ((a[2] as u64) << 32) | ((a[3] as u64) << 48)
}

/// The four 16-bit fields of a word, lowest first.
pub open spec fn unpack_attributes(w: u64) -> Seq<u16> {
    seq![
        (w & 0xffff) as u16,
        ((w >> 16) & 0xffff) as u16,
        ((w >> 32) & 0xffff) as u16,
        ((w >> 48) & 0xffff) as u16,
    ]
}

/// Replacing the status keeps position and tick.
pub proof fn lemma_with_status(info: u64, status: u64)
    by (bit_vector)
    requires
        status <= 0xff,
    ensures
        status_of(with_status(info, status)) == status,
        pointer_of(with_status(info, status)) == pointer_of(info),
        tick_of(with_status(info, status)) == tick_of(info),
        with_status(info, status) & 0xff_ffff_ffff_ffff == info & 0xff_ffff_ffff_ffff,
{
}

/// Marking an automaton as restart-pending adds 2 to a status of 0 or 1,
/// leaves a status of 2 or 3, and keeps the halted bit, the position and
/// the tick.
pub proof fn lemma_marked_restarting(info: u64)
    by (bit_vector)
    ensures
        (info | 0x200_0000_0000_0000) == info | (1u64 << 57),
        status_of(info | 0x200_0000_0000_0000) == status_of(info) | 2,
        status_of(info) == 0 || status_of(info) == 2 ==> status_of(info | 0x200_0000_0000_0000)
            == 2,
        status_of(info) == 1 || status_of(info) == 3 ==> status_of(info | 0x200_0000_0000_0000)
            == 3,
        status_of(info) == 0 || status_of(info) == 2 ==> (info | 0x200_0000_0000_0000) == (info
            & 0xff_ffff_ffff_ffff) | (2u64 << 56),
        pointer_of(info | 0x200_0000_0000_0000) == pointer_of(info),
        tick_of(info | 0x200_0000_0000_0000) == tick_of(info),
        (info | 0x200_0000_0000_0000) & 0x1ff_ffff_ffff_ffff == info & 0x1ff_ffff_ffff_ffff,
{
}

/// A position below 128 and a tick below 2^48 are read back as written, with
/// the running status.
pub proof fn lemma_running_at(pointer: u64, tick: u64)
    by (bit_vector)
    requires
        pointer < 128,
        tick < 0x1_0000_0000_0000,
    ensures
        status_of(running_at(pointer, tick)) == 0,
        pointer_of(running_at(pointer, tick)) == pointer,
        tick_of(running_at(pointer, tick)) == tick,
        running_at(0, tick) == tick,
{
}

/// The status is the whole top byte, and the position is below 128.
pub proof fn lemma_field_ranges(info: u64)
    by (bit_vector)
    ensures
        info >> 56 == status_of(info),
        status_of(info) <= 0xff,
        pointer_of(info) < 128,
        tick_of(info) < 0x1_0000_0000_0000,
{
}

proof fn lemma_pack_unpack(w: u64, a0: u16, a1: u16, a2: u16, a3: u16)
    by (bit_vector)
    ensures
        ((w & 0xffff) as u16 as u64) | (((w >> 16) & 0xffff) as u16 as u64) << 16 | (((w >> 32)
            & 0xffff) as u16 as u64) << 32 | (((w >> 48) & 0xffff) as u16 as u64) << 48 == w,
        ({
            let p = (a0 as u64) | ((a1 as u64) << 16) | ((a2 as u64) << 32) | ((a3 as u64) << 48);
            &&& (p & 0xffff) as u16 == a0
            &&& ((p >> 16) & 0xffff) as u16 == a1
            &&& ((p >> 32) & 0xffff) as u16 == a2
            &&& ((p >> 48) & 0xffff) as u16 == a3
        }),
{
}

/// Unpacking and packing again gives the word back.
pub proof fn lemma_pack_of_unpack(w: u64)
    ensures
        pack_attributes(unpack_attributes(w)) == w,
{
    lemma_pack_unpack(w, 0, 0, 0, 0);
}

/// Packing four attributes and unpacking gives them back.
pub proof fn lemma_unpack_of_pack(a: Seq<u16>)
    requires
        a.len() == 4,
    ensures
        unpack_attributes(pack_attributes(a)) =~= a,
{
    lemma_pack_unpack(0, a[0], a[1], a[2], a[3]);
}

/// An automaton of a player.
#[derive(Debug, Clone, Copy, PartialEq, Eq)]
pub struct Object {
    /// Status in bits 56 to 63, position in bits 48 to 54, scheduled tick below.
    pub modifier_info: u64,
    /// Indices into the owner's cards, applied in a cycle.
    pub cards: [u8; 8],
    /// Level, speed, efficiency, productivity.
    pub attributes: [u16; 4],
}

impl Object {
    /// 0 for running, 1 for halted, 2 for restart-pending.
    pub open spec fn status(&self) -> u64 {
        status_of(self.modifier_info)
    }

    /// Position of the current card in the program.
    pub open spec fn pointer(&self) -> u64 {
        pointer_of(self.modifier_info)
    }

    /// Tick at which the current card was scheduled.
    pub open spec fn scheduled_tick(&self) -> u64 {
        tick_of(self.modifier_info)
    }

    /// The status is running, halted or restart-pending, and the position
    /// lies inside the program.
    pub open spec fn wf(&self) -> bool {
        &&& self.status() <= STATUS_RESTARTING
        &&& self.pointer() < PROGRAM_SIZE
    }

    /// The three storage words of an automaton.
    pub open spec fn words(&self) -> Seq<u64> {
        seq![self.modifier_info, pack_attributes(self.attributes@), word_of(self.cards@)]
    }

    /// A running automaton at the start of the program `cards`, at level zero.
    pub fn new(cards: [u8; 8]) -> (object: Self)
        ensures
            object.cards == cards,
            object.modifier_info == 0,
            object.attributes@ == seq![0u16, 0u16, 0u16, 0u16],
            object.status() == STATUS_RUNNING,
            object.pointer() == 0,
            object.scheduled_tick() == 0,
    {
        let object = Self { cards, modifier_info: 0, attributes: [0, 0, 0, 0] };
        proof {
            lemma_running_at(0, 0);
            assert(object.attributes@ =~= seq![0u16, 0u16, 0u16, 0u16]);
        }
        object
    }

    /// Whether status and position are legal.
    pub fn well_formed(&self) -> (ok: bool)
        ensures
            ok == self.wf(),
    {
        proof {
            lemma_field_ranges(self.modifier_info);
        }
        (self.modifier_info >> 56) <= STATUS_RESTARTING && ((self.modifier_info >> 48) & 0x7f) < 8
    }

    /// Marks the automaton as halted; position and scheduled tick stay.
    pub fn halt(&mut self)
        ensures
            final(self).modifier_info == with_status(old(self).modifier_info, STATUS_HALTED),
            final(self).status() == STATUS_HALTED,
            final(self).pointer() == old(self).pointer(),
            final(self).scheduled_tick() == old(self).scheduled_tick(),
            final(self).cards == old(self).cards,
            final(self).attributes == old(self).attributes,
    {
        proof {
            lemma_with_status(self.modifier_info, STATUS_HALTED);
        }
        self.modifier_info = (self.modifier_info & 0xFFFFFFFFFFFFFF) | (STATUS_HALTED << 56);
    }

    /// Whether the automaton stopped because a card could not be applied.
    pub fn is_halted(&self) -> (halted: bool)
        ensures
            halted == (self.status() == STATUS_HALTED),
    {
        proof {
            lemma_field_ranges(self.modifier_info);
        }
        (self.modifier_info >> 56) == 1
    }

    /// Whether the automaton waits to start a new program.
    pub fn is_restarting(&self) -> (restarting: bool)
        ensures
            restarting == (self.status() == STATUS_RESTARTING),
    {
        proof {
            lemma_field_ranges(self.modifier_info);
        }
        (self.modifier_info >> 56) == 2
    }

    /// Position of the current card in the program.
    pub fn get_modifier_index(&self) -> (index: u64)
        ensures
            index == self.pointer(),
            index < 128,
    {
        proof {
            lemma_field_ranges(self.modifier_info);
        }
        (self.modifier_info >> 48) & 0x7f
    }

    /// Makes the automaton run at position `modifier_index`, scheduled at `counter`.
    pub fn start_new_modifier(&mut self, modifier_index: usize, counter: u64)
        ensures
            final(self).modifier_info == running_at(modifier_index as u64, counter),
            modifier_index < 128 && counter < TICK_LIMIT ==> {
                &&& final(self).status() == STATUS_RUNNING
                &&& final(self).pointer() == modifier_index
                &&& final(self).scheduled_tick() == counter
            },
            final(self).cards == old(self).cards,
            final(self).attributes == old(self).attributes,
    {
        proof {
            if modifier_index < 128 && counter < TICK_LIMIT {
                lemma_running_at(modifier_index as u64, counter);
            }
        }
        self.modifier_info = ((modifier_index as u64) << 48) | counter;
    }

    /// Makes the automaton run from the start of its program, scheduled at `counter`.
    pub fn restart(&mut self, counter: u64)
        ensures
            final(self).modifier_info == counter,
            counter < TICK_LIMIT ==> {
                &&& final(self).status() == STATUS_RUNNING
                &&& final(self).pointer() == 0
                &&& final(self).scheduled_tick() == counter
            },
            final(self).cards == old(self).cards,
            final(self).attributes == old(self).attributes,
    {
        proof {
            if counter < TICK_LIMIT {
                lemma_running_at(0, counter);
            }
        }
        self.modifier_info = counter;
    }

    /// Replaces the program.
    pub fn reset_modifier(&mut self, cards: [u8; 8])
        ensures
            final(self).cards == cards,
            final(self).modifier_info == old(self).modifier_info,
            final(self).attributes == old(self).attributes,
    {
        self.cards = cards;
    }

    /// Marks the automaton as restart-pending: bit 57 is set, and every other
    /// bit stays, the halted bit too. A running automaton becomes
    /// restart-pending, and a halted one shows both marks.
    pub fn reset_halt_bit_to_restart(&mut self)
        ensures
            final(self).modifier_info == marked_restarting(old(self).modifier_info),
            final(self).modifier_info == old(self).modifier_info | (1u64 << 57),
            old(self).status() == STATUS_RUNNING || old(self).status() == STATUS_RESTARTING
                ==> final(self).status() == STATUS_RESTARTING,
            old(self).status() == STATUS_HALTED || old(self).status()
                == STATUS_HALTED_RESTARTING ==> final(self).status() == STATUS_HALTED_RESTARTING,
            final(self).pointer() == old(self).pointer(),
            final(self).scheduled_tick() == old(self).scheduled_tick(),
            final(self).cards == old(self).cards,
            final(self).attributes == old(self).attributes,
    {
        proof {
            lemma_marked_restarting(self.modifier_info);
        }
        self.modifier_info |= 1 << 57;
    }

    /// Appends the automaton's three words to `data`.
    pub fn to_data(&self, data: &mut Vec<u64>)
        ensures
            final(data)@ == old(data)@ + self.words(),
    {
        data.push(self.modifier_info);
        data.push(
            (self.attributes[0] as u64) | ((self.attributes[1] as u64) << 16) | ((
            self.attributes[2] as u64) << 32) | ((self.attributes[3] as u64) << 48),
        );
        data.push(bytes_to_word(&self.cards));
        assert(data@ =~= old(data)@ + self.words());
    }

    /// Reads an automaton from the three words of `data` that begin at `start`.
    ///
    /// Succeeds exactly when the three words are there; the automaton is then
    /// the one whose words they are, and the position after them is returned
    /// with it.
    pub fn from_data(data: &Vec<u64>, start: usize) -> (r: Option<(Self, usize)>)
        ensures
            r.is_some() <==> start + 3 <= data@.len(),
            r matches Some((object, next)) ==> {
                &&& next == start + 3
                &&& object.words() == data@.subrange(start as int, start + 3)
            },
    {
        if data.len() < 3 || start > data.len() - 3 {
            return None;
        }
        let modifier_info = data[start];
        let packed = data[start + 1];
        let attributes: [u16; 4] = [
            (packed & 0xffff) as u16,
            ((packed >> 16) & 0xffff) as u16,
            ((packed >> 32) & 0xffff) as u16,
            ((packed >> 48) & 0xffff) as u16,
        ];
        let cards = word_to_bytes(data[start + 2]);
        let object = Object { modifier_info, attributes, cards };
        proof {
            assert(attributes@ =~= unpack_attributes(packed));
            lemma_pack_of_unpack(packed);
            lemma_word_of_bytes_of(data[start as int + 2]);
            assert(object.words() =~= data@.subrange(start as int, start + 3));
        }
        Some((object, start + 3))
    }
}

/// Two automata with the same storage words are the same automaton.
pub proof fn lemma_object_words_injective(a: Object, b: Object)
    requires
        a.words() == b.words(),
    ensures
        a == b,
{
    assert(a.modifier_info == a.words()[0]);
    assert(b.modifier_info == b.words()[0]);
    assert(pack_attributes(a.attributes@) == a.words()[1]);
    assert(pack_attributes(b.attributes@) == b.words()[1]);
    assert(word_of(a.cards@) == a.words()[2]);
    assert(word_of(b.cards@) == b.words()[2]);
    lemma_unpack_of_pack(a.attributes@);
    lemma_unpack_of_pack(b.attributes@);
    lemma_bytes_of_word_of(a.cards@);
    lemma_bytes_of_word_of(b.cards@);
    assert(a.attributes@ =~= b.attributes@);
    assert(a.cards@ =~= b.cards@);
    assert(a.attributes =~= b.attributes);
    assert(a.cards =~= b.cards);
}

/// Storing an automaton and reading the words back gives the same
/// automaton: `read` is one whose words are the three that `object`'s own
/// words, with anything after them, begin with.
pub proof fn lemma_object_round_trip(object: Object, tail: Seq<u64>, read: Object)
    requires
        read.words() == (object.words() + tail).subrange(0, 3),
    ensures
        read == object,
{
    assert((object.words() + tail).subrange(0, 3) =~= object.words());
    lemma_object_words_injective(read, object);
}

/// The program of an automaton has eight cards, and the position of a
/// well-formed automaton lies among them.
pub proof fn lemma_program_length(object: Object)
    ensures
        object.cards@.len() == PROGRAM_SIZE,
        object.wf() ==> object.pointer() < object.cards@.len(),
{
}

/// Halting and marking as restart-pending, in any order and any number of
/// times, leave the status among the four values 0 to 3.
pub proof fn lemma_status_stays_legal(info: u64)
    requires
        status_of(info) <= STATUS_HALTED_RESTARTING,
    ensures
        status_of(with_status(info, STATUS_HALTED)) <= STATUS_HALTED_RESTARTING,
        status_of(marked_restarting(info)) <= STATUS_HALTED_RESTARTING,
{
    lemma_with_status(info, STATUS_HALTED);
    lemma_marked_restarting(info);
    lemma_field_ranges(info);
    let s = status_of(info);
    assert(s | 2 <= 3) by (bit_vector)
        requires
            s <= 3,
    ;
}

/// Whatever its history, a well-formed automaton shows one of the four
/// status values 0 to 3.
pub proof fn lemma_status_exclusive(object: Object)
    requires
        object.wf(),
    ensures
        (object.modifier_info >> 56) & 0xff == 0 || (object.modifier_info >> 56) & 0xff == 1 || (
        object.modifier_info >> 56) & 0xff == 2 || (object.modifier_info >> 56) & 0xff == 3,
{
}

} // verus!
