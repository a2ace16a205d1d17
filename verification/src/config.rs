//! Game constants, resource weights, bounty curves and the card generator.

use crate::card::Card;
use vstd::arithmetic::power::{lemma_pow0, lemma_pow_increases, pow};
use vstd::prelude::*;

verus! {

/// Attributes of an automaton: level, speed, efficiency, productivity.
pub const ENTITY_ATTRIBUTES_SIZE: usize = 4;

/// Number of local resources that a player holds.
pub const LOCAL_ATTRIBUTES_SIZE: usize = 8;

/// Paid actions between two increases of the action cost.
pub const COST_INCREASE_ROUND: u16 = 5;

/// Energy of a new player.
pub const INITIAL_ENERGY: u16 = 256;

/// Attribute levels of the `index`-th entity of a fresh world: the first two
/// start at zero, and each further one adds a point to speed, efficiency and
/// productivity in turn.
pub fn default_entities(index: usize) -> (attributes: [i64; ENTITY_ATTRIBUTES_SIZE])
    ensures
        attributes[0] == 0,
        index < 2 ==> attributes[1] == 0 && attributes[2] == 0 && attributes[3] == 0,
        index >= 2 ==> {
            &&& attributes[1] == (index - 2 + 2) / 3
            &&& attributes[2] == (index - 2 + 1) / 3
            &&& attributes[3] == (index - 2) / 3
        },
{
    if index < 2 {
        [0, 0, 0, 0]
    } else {
        let rounds: u64 = (index - 2) as u64;
        [
            0,
            (rounds / 3 + (rounds % 3 + 2) / 3) as i64,
            (rounds / 3 + (rounds % 3 + 1) / 3) as i64,
            (rounds / 3) as i64,
        ]
    }
}

/// The local resources of a new player.
pub open spec fn default_local_spec() -> Seq<i64> {
    seq![30i64, 30i64, 0i64, 0i64, 2i64, 0i64, 0i64, 0i64]
}

/// The local resources of a new player.
pub fn default_local() -> (local: [i64; LOCAL_ATTRIBUTES_SIZE])
    ensures
        local@ == default_local_spec(),
{
    let local: [i64; LOCAL_ATTRIBUTES_SIZE] = [30, 30, 0, 0, 2, 0, 0, 0];
    assert(local@ =~= default_local_spec());
    local
}

/// Weight of one unit of local resource `i`.
pub open spec fn weight(i: int) -> int {
    if i == 0 {
        1
    } else if i == 1 {
        1
    } else if i == 2 {
        2
    } else if i == 3 {
        4
    } else if i == 4 {
        8
    } else if i == 5 {
        16
    } else if i == 6 {
        32
    } else {
        128
    }
}

/// Weight of one unit of local resource `i`.
pub fn resource_weight(i: usize) -> (w: u64)
    requires
        i < LOCAL_ATTRIBUTES_SIZE,
    ensures
        w == weight(i as int),
        1 <= w <= 128,
{
    if i == 0 {
        1
    } else if i == 1 {
        1
    } else if i == 2 {
        2
    } else if i == 3 {
        4
    } else if i == 4 {
        8
    } else if i == 5 {
        16
    } else if i == 6 {
        32
    } else {
        128
    }
}

/// The bits of `rand` that choose a card: two output resources with their
/// amounts, from the two nibbles of bytes 0 and 1, and four input resources,
/// from the nibbles of bytes 2 and 3.
pub struct Draw {
    pub out1: u64,
    pub out2: u64,
    pub amount1: u64,
    pub amount2: u64,
    pub in1: u64,
    pub in2: u64,
    pub in3: u64,
    pub in4: u64,
}

/// The choices that the bits of `rand` make.
pub open spec fn draw_of(rand: u64) -> Draw {
    Draw {
        out1: rand & 0x7,
        out2: (rand >> 4) & 0x7,
        amount1: (rand >> 8) & 0x3,
        amount2: (rand >> 12) & 0x3,
        in1: (rand >> 16) & 0x7,
        in2: (rand >> 20) & 0x7,
        in3: (rand >> 24) & 0x7,
        in4: (rand >> 28) & 0x7,
    }
}

impl Draw {
    /// Weighted value of what the card produces.
    pub open spec fn output_weight(self) -> int {
        self.out1 * self.amount1 * weight(self.out1 as int) + self.out2 * self.amount2 * weight(
            self.out2 as int,
        )
    }

    /// Sum of the four input resources as the player holds them.
    pub open spec fn distribute(self, local: Seq<i64>) -> int {
        local[self.in1 as int] + local[self.in2 as int] + local[self.in3 as int] + local[self.in4
            as int]
    }

    /// What the card takes of input resource `input`.
    pub open spec fn cost(self, local: Seq<i64>, input: u64) -> int {
        self.output_weight() * local[input as int] / (weight(input as int) * self.distribute(local)
            + 1)
    }

    /// The product and the sum behind the cost of input resource `input` stay
    /// within 64 unsigned bits.
    pub open spec fn input_fits(self, local: Seq<i64>, input: u64) -> bool {
        &&& self.output_weight() * local[input as int] <= u64::MAX
        &&& weight(input as int) * self.distribute(local) + 1 <= u64::MAX
    }

    /// Every sum and product of the draw stays within 64 bits: the sum of
    /// the inputs as a signed number, the rest as unsigned ones.
    pub open spec fn fits(self, local: Seq<i64>) -> bool {
        &&& self.distribute(local) <= i64::MAX
        &&& self.input_fits(local, self.in1)
        &&& self.input_fits(local, self.in2)
        &&& self.input_fits(local, self.in3)
        &&& self.input_fits(local, self.in4)
    }

    /// The card's deltas before they are limited: each input pays its cost,
    /// each output gains its amount.
    pub open spec fn raw_deltas(self, local: Seq<i64>) -> Seq<int> {
        let zero = Seq::new(8, |i: int| 0int);
        let a = minus_at(zero, self.in1 as int, self.cost(local, self.in1));
        let b = minus_at(a, self.in2 as int, self.cost(local, self.in2));
        let c = minus_at(b, self.in3 as int, self.cost(local, self.in3));
        let d = minus_at(c, self.in4 as int, self.cost(local, self.in4));
        let e = minus_at(d, self.out1 as int, -(self.amount1 as int));
        minus_at(e, self.out2 as int, -(self.amount2 as int))
    }
}

/// `s` with `amount` taken from component `i`.
pub open spec fn minus_at(s: Seq<int>, i: int, amount: int) -> Seq<int> {
    s.update(i, s[i] - amount)
}

/// `x` limited to the range from -64 to 64.
pub open spec fn clamp(x: int) -> int {
    if x > 64 {
        64
    } else if x < -64 {
        -64
    } else {
        x
    }
}

/// Weighted sum of the first `n` deltas.
pub open spec fn weighted_sum(deltas: Seq<int>, n: int) -> int
    decreases n,
{
    if n <= 0 {
        0
    } else {
        weighted_sum(deltas, n - 1) + deltas[n - 1] * weight(n - 1)
    }
}

/// Duration of a card with the given deltas: 15 ticks, and 40 more for each
/// unit of weight above -5.
pub open spec fn duration_of(deltas: Seq<int>) -> int {
    let w = weighted_sum(deltas, 8) + 5;
    if w < 0 {
        15
    } else {
        w * 40 + 15
    }
}

/// A card can be drawn by `rand` for a player who holds `local`: there are
/// eight resources, none is negative, and the draw stays within 64 bits.
pub open spec fn drawable(local: Seq<i64>, rand: u64) -> bool {
    &&& local.len() == 8
    &&& forall|i: int| 0 <= i < 8 ==> #[trigger] local[i] >= 0
    &&& draw_of(rand).fits(local)
}

/// Where a card can be drawn, no input costs more than the weighted value of
/// the outputs, which is at most 5376: every cost fits a signed word as well.
pub proof fn lemma_cost_bounded(local: Seq<i64>, rand: u64, input: u64)
    requires
        drawable(local, rand),
        input == draw_of(rand).in1 || input == draw_of(rand).in2 || input == draw_of(rand).in3
            || input == draw_of(rand).in4,
    ensures
        0 <= draw_of(rand).cost(local, input) <= draw_of(rand).output_weight() <= 5376,
{
    lemma_draw_ranges(rand);
    let draw = draw_of(rand);
    let first = draw.out1 * draw.amount1;
    let second = draw.out2 * draw.amount2;
    let weight1 = weight(draw.out1 as int);
    let weight2 = weight(draw.out2 as int);
    assert(0 <= first <= 21 && 0 <= second <= 21) by (nonlinear_arith)
        requires
            draw.out1 < 8,
            draw.amount1 < 4,
            draw.out2 < 8,
            draw.amount2 < 4,
            first == draw.out1 * draw.amount1,
            second == draw.out2 * draw.amount2,
    ;
    assert(0 <= first * weight1 <= 2688 && 0 <= second * weight2 <= 2688) by (nonlinear_arith)
        requires
            0 <= first <= 21,
            0 <= second <= 21,
            1 <= weight1 <= 128,
            1 <= weight2 <= 128,
    ;
    let total = draw.output_weight();
    let held = local[input as int] as int;
    let sum = draw.distribute(local);
    let scale = weight(input as int);
    let divisor = scale * sum + 1;
    assert(local[draw.in1 as int] >= 0 && local[draw.in2 as int] >= 0 && local[draw.in3 as int]
        >= 0 && local[draw.in4 as int] >= 0);
    assert(0 <= held <= sum);
    assert(held < divisor) by (nonlinear_arith)
        requires
            0 <= held <= sum,
            1 <= scale,
            divisor == scale * sum + 1,
    ;
    assert(0 <= total * held <= divisor * total) by (nonlinear_arith)
        requires
            0 <= total,
            0 <= held < divisor,
    ;
    vstd::arithmetic::div_mod::lemma_div_is_ordered(total * held, divisor * total, divisor);
    vstd::arithmetic::div_mod::lemma_div_multiples_vanish(total, divisor);
    vstd::arithmetic::div_mod::lemma_div_is_ordered(0, total * held, divisor);
}

/// `deltas` with each component limited to the range from -64 to 64.
pub open spec fn limited(deltas: Seq<int>) -> Seq<int> {
    Seq::new(deltas.len(), |i: int| clamp(deltas[i]))
}

/// The deltas of the card drawn by `rand` for a player who holds `local`.
pub open spec fn generated_deltas(local: Seq<i64>, rand: u64) -> Seq<int> {
    limited(draw_of(rand).raw_deltas(local))
}

/// The card drawn by `rand` for a player who holds `local`.
pub open spec fn generated_card(local: Seq<i64>, rand: u64) -> Card {
    let deltas = generated_deltas(local, rand);
    Card {
        duration: duration_of(deltas) as u64,
        attributes: [
            deltas[0] as i8,
            deltas[1] as i8,
            deltas[2] as i8,
            deltas[3] as i8,
            deltas[4] as i8,
            deltas[5] as i8,
            deltas[6] as i8,
            deltas[7] as i8,
        ],
    }
}

proof fn lemma_draw_ranges(rand: u64)
    by (bit_vector)
    ensures
        rand & 0x7 < 8,
        (rand >> 4) & 0x7 < 8,
        (rand >> 8) & 0x3 < 4,
        (rand >> 12) & 0x3 < 4,
        (rand >> 16) & 0x7 < 8,
        (rand >> 20) & 0x7 < 8,
        (rand >> 24) & 0x7 < 8,
        (rand >> 28) & 0x7 < 8,
{
}

/// Limits a delta to the range from -64 to 64.
pub fn clamp_delta(x: i128) -> (delta: i8)
    ensures
        delta == clamp(x as int),
        x > 64 ==> delta == 64,
        x < -64 ==> delta == -64,
        -64 <= delta <= 64,
{
    if x > 64 {
        64
    } else if x < -64 {
        -64
    } else {
        x as i8
    }
}

fn output_term(out: u64, amount: u64) -> (w: u64)
    requires
        out < 8,
        amount < 4,
    ensures
        w == out * amount * weight(out as int),
        w <= 2688,
{
    assert(out * amount <= 21) by (nonlinear_arith)
        requires
            out < 8,
            amount < 4,
    ;
    let product = out * amount;
    let weight = resource_weight(out as usize);
    assert(product * weight <= 2688) by (nonlinear_arith)
        requires
            product <= 21,
            weight <= 128,
    ;
    product * weight
}

fn input_cost(
    local: &[i64; LOCAL_ATTRIBUTES_SIZE],
    input: u64,
    output_weight: u64,
    distribute: i64,
) -> (cost: u64)
    requires
        input < 8,
        0 <= local[input as int],
        0 <= distribute,
        output_weight * local[input as int] <= u64::MAX,
        weight(input as int) * distribute + 1 <= u64::MAX,
    ensures
        cost == output_weight * local[input as int] / (weight(input as int) * distribute + 1),
{
    let held = local[input as usize] as u64;
    let weight = resource_weight(input as usize);
    assert(0 <= weight * distribute) by (nonlinear_arith)
        requires
            1 <= weight,
            0 <= distribute,
    ;
    let numerator = output_weight * held;
    let denominator = weight * (distribute as u64) + 1;
    numerator / denominator
}

/// Whether the product and the sum behind the cost of `input` stay within
/// 64 unsigned bits.
fn input_fits(
    local: &[i64; LOCAL_ATTRIBUTES_SIZE],
    input: u64,
    output_weight: u64,
    distribute: i128,
) -> (ok: bool)
    requires
        input < 8,
        output_weight <= 5376,
        0 <= local[input as int],
        0 <= distribute <= i64::MAX,
    ensures
        ok == (output_weight * local[input as int] <= u64::MAX && weight(input as int)
            * distribute + 1 <= u64::MAX),
{
    let held = local[input as usize] as i128;
    let weight = resource_weight(input as usize) as i128;
    assert(0 <= output_weight * held <= 5376 * i64::MAX) by (nonlinear_arith)
        requires
            0 <= output_weight <= 5376,
            0 <= held <= i64::MAX,
    ;
    assert(0 <= weight * distribute <= 128 * i64::MAX) by (nonlinear_arith)
        requires
            1 <= weight <= 128,
            0 <= distribute <= i64::MAX,
    ;
    (output_weight as i128) * held <= u64::MAX as i128 && weight * distribute + 1
        <= u64::MAX as i128
}

/// Whether a card can be drawn by `rand` for a player who holds
/// `current_resource`.
pub fn can_draw(current_resource: &[i64; LOCAL_ATTRIBUTES_SIZE], rand: u64) -> (ok: bool)
    ensures
        ok == drawable(current_resource@, rand),
{
    let mut i: usize = 0;
    while i < 8
        invariant
            i <= 8,
            forall|j: int| 0 <= j < i ==> #[trigger] current_resource@[j] >= 0,
        decreases 8 - i,
    {
        if current_resource[i] < 0 {
            return false;
        }
        i += 1;
    }
    proof {
        lemma_draw_ranges(rand);
    }
    let out1 = rand & 0x7;
    let out2 = (rand >> 4) & 0x7;
    let amount1 = (rand >> 8) & 0x3;
    let amount2 = (rand >> 12) & 0x3;
    let in1 = (rand >> 16) & 0x7;
    let in2 = (rand >> 20) & 0x7;
    let in3 = (rand >> 24) & 0x7;
    let in4 = (rand >> 28) & 0x7;
    let output_weight = output_term(out1, amount1) + output_term(out2, amount2);
    let distribute = current_resource[in1 as usize] as i128 + current_resource[in2 as usize] as i128
        + current_resource[in3 as usize] as i128 + current_resource[in4 as usize] as i128;
    if distribute > i64::MAX as i128 {
        return false;
    }
    input_fits(current_resource, in1, output_weight, distribute) && input_fits(
        current_resource,
        in2,
        output_weight,
        distribute,
    ) && input_fits(current_resource, in3, output_weight, distribute) && input_fits(
        current_resource,
        in4,
        output_weight,
        distribute,
    )
}

/// `raw` holds the components of `deltas`, each between `low` and `high`.
spec fn holds(raw: [i64; 8], deltas: Seq<int>, low: int, high: int) -> bool {
    &&& deltas.len() == 8
    &&& forall|j: int| 0 <= j < 8 ==> raw[j] == #[trigger] deltas[j] && low <= deltas[j] <= high
}

/// Takes `amount` from component `at`.
fn take_at(
    raw: &mut [i64; 8],
    at: u64,
    amount: u64,
    Ghost(deltas): Ghost<Seq<int>>,
    Ghost(low): Ghost<int>,
)
    requires
        at < 8,
        amount <= 5376,
        -3 * 5376 <= low <= 0,
        holds(*old(raw), deltas, low, 0),
    ensures
        holds(*final(raw), minus_at(deltas, at as int, amount as int), low - amount, 0),
{
    assert(raw[at as int] == deltas[at as int]);
    raw[at as usize] = raw[at as usize] - amount as i64;
    let ghost after = minus_at(deltas, at as int, amount as int);
    assert forall|j: int| 0 <= j < 8 implies raw[j] == #[trigger] after[j] && low - amount
        <= after[j] <= 0 by {
        assert(old(raw)[j] == deltas[j]);
    }
}

/// Adds `amount` to component `at`.
fn give_at(
    raw: &mut [i64; 8],
    at: u64,
    amount: u64,
    Ghost(deltas): Ghost<Seq<int>>,
    Ghost(low): Ghost<int>,
    Ghost(high): Ghost<int>,
)
    requires
        at < 8,
        amount < 4,
        -4 * 5376 <= low <= 0,
        0 <= high <= 3,
        holds(*old(raw), deltas, low, high),
    ensures
        holds(*final(raw), minus_at(deltas, at as int, -(amount as int)), low, high + 3),
{
    assert(raw[at as int] == deltas[at as int]);
    raw[at as usize] = raw[at as usize] + amount as i64;
    let ghost after = minus_at(deltas, at as int, -(amount as int));
    assert forall|j: int| 0 <= j < 8 implies raw[j] == #[trigger] after[j] && low <= after[j]
        <= high + 3 by {
        assert(old(raw)[j] == deltas[j]);
    }
}

/// The card with the deltas in `raw`, each limited to the range from -64 to 64.
fn limited_card(raw: &[i64; 8], Ghost(deltas): Ghost<Seq<int>>) -> (card: Card)
    requires
        deltas.len() == 8,
        forall|j: int| 0 <= j < 8 ==> raw[j] == #[trigger] deltas[j],
    ensures
        forall|j: int| 0 <= j < 8 ==> card.attributes[j] == #[trigger] limited(deltas)[j],
        forall|j: int| 0 <= j < 8 ==> -64 <= #[trigger] card.attributes[j] <= 64,
        card.duration == duration_of(limited(deltas)),
        15 <= card.duration <= 491735,
{
    let ghost limits = limited(deltas);
    let mut attributes: [i8; 8] = [0i8;8];
    let mut total: i64 = 0;
    let mut i: usize = 0;
    while i < 8
        invariant
            i <= 8,
            deltas.len() == 8,
            limits == limited(deltas),
            forall|j: int| 0 <= j < 8 ==> raw[j] == #[trigger] deltas[j],
            forall|j: int| 0 <= j < i ==> attributes[j] == #[trigger] limits[j],
            forall|j: int| 0 <= j < i ==> -64 <= #[trigger] attributes[j] <= 64,
            total == weighted_sum(limits, i as int),
            -8192 * i <= total <= 8192 * i,
        decreases 8 - i,
    {
        assert(raw[i as int] == deltas[i as int]);
        assert(limits[i as int] == clamp(deltas[i as int]));
        let delta = clamp_delta(raw[i] as i128);
        attributes[i] = delta;
        let weight = resource_weight(i) as i64;
        assert(-8192 <= delta * weight <= 8192) by (nonlinear_arith)
            requires
                -64 <= delta <= 64,
                1 <= weight <= 128,
        ;
        total = total + (delta as i64) * weight;
        i += 1;
    }
    proof {
        assert forall|j: int| 0 <= j < 8 implies -64 <= #[trigger] limits[j] <= 64 by {
            assert(limits[j] == clamp(deltas[j]));
        }
        lemma_weighted_sum_bound(limits, 8);
    }
    let weight = total + 5;
    let duration: u64 = if weight < 0 {
        15
    } else {
        (weight * 40 + 15) as u64
    };
    Card { duration, attributes }
}

/// Draws a card for a player who holds `current_resource`.
///
/// The random word picks two outputs with their amounts and four inputs. The
/// inputs pay, in proportion to what the player holds of them, for the
/// weighted value of the outputs; every delta is then limited to the range
/// from -64 to 64, and the duration grows with the weighted sum of the deltas.
/// The costs are those of 64-bit arithmetic: the draw is defined where no
/// sum or product of it leaves 64 bits.
pub fn random_modifier(current_resource: [i64; LOCAL_ATTRIBUTES_SIZE], rand: u64) -> (card: Card)
    requires
        drawable(current_resource@, rand),
    ensures
        card == generated_card(current_resource@, rand),
        forall|i: int|
            0 <= i < 8 ==> card.attributes[i] == #[trigger] generated_deltas(
                current_resource@,
                rand,
            )[i],
        card.duration == duration_of(generated_deltas(current_resource@, rand)),
        forall|i: int| 0 <= i < 8 ==> -64 <= #[trigger] card.attributes[i] <= 64,
        15 <= card.duration <= 491735,
{
    proof {
        lemma_draw_ranges(rand);
    }
    let out1 = rand & 0x7;
    let out2 = (rand >> 4) & 0x7;
    let amount1 = (rand >> 8) & 0x3;
    let amount2 = (rand >> 12) & 0x3;
    let in1 = (rand >> 16) & 0x7;
    let in2 = (rand >> 20) & 0x7;
    let in3 = (rand >> 24) & 0x7;
    let in4 = (rand >> 28) & 0x7;
    let output_weight = output_term(out1, amount1) + output_term(out2, amount2);
    let distribute = current_resource[in1 as usize] + current_resource[in2 as usize]
        + current_resource[in3 as usize] + current_resource[in4 as usize];
    let cost1 = input_cost(&current_resource, in1, output_weight, distribute);
    let cost2 = input_cost(&current_resource, in2, output_weight, distribute);
    let cost3 = input_cost(&current_resource, in3, output_weight, distribute);
    let cost4 = input_cost(&current_resource, in4, output_weight, distribute);
    proof {
        lemma_cost_bounded(current_resource@, rand, in1);
        lemma_cost_bounded(current_resource@, rand, in2);
        lemma_cost_bounded(current_resource@, rand, in3);
        lemma_cost_bounded(current_resource@, rand, in4);
    }
    let ghost zero = Seq::new(8, |i: int| 0int);
    let ghost a = minus_at(zero, in1 as int, cost1 as int);
    let ghost b = minus_at(a, in2 as int, cost2 as int);
    let ghost c = minus_at(b, in3 as int, cost3 as int);
    let ghost d = minus_at(c, in4 as int, cost4 as int);
    let ghost e = minus_at(d, out1 as int, -(amount1 as int));
    let ghost f = minus_at(e, out2 as int, -(amount2 as int));
    let mut raw: [i64; 8] = [0i64;8];
    take_at(&mut raw, in1, cost1, Ghost(zero), Ghost(0));
    take_at(&mut raw, in2, cost2, Ghost(a), Ghost(-cost1));
    take_at(&mut raw, in3, cost3, Ghost(b), Ghost(-cost1 - cost2));
    take_at(&mut raw, in4, cost4, Ghost(c), Ghost(-cost1 - cost2 - cost3));
    let ghost low = -cost1 - cost2 - cost3 - cost4;
    give_at(&mut raw, out1, amount1, Ghost(d), Ghost(low), Ghost(0));
    give_at(&mut raw, out2, amount2, Ghost(e), Ghost(low), Ghost(3));
    assert(f == draw_of(rand).raw_deltas(current_resource@));
    let card = limited_card(&raw, Ghost(f));
    assert(card.attributes =~= generated_card(current_resource@, rand).attributes);
    card
}

/// The weighted sum of deltas within the limit is at most 64 times the sum
/// of the weights.
pub proof fn lemma_weighted_sum_bound(deltas: Seq<int>, n: int)
    requires
        0 <= n <= 8,
        deltas.len() == 8,
        forall|j: int| 0 <= j < 8 ==> -64 <= #[trigger] deltas[j] <= 64,
    ensures
        -64 * weight_total(n) <= weighted_sum(deltas, n) <= 64 * weight_total(n),
        weight_total(8) == 192,
    decreases n,
{
    reveal_with_fuel(weight_total, 9);
    if n > 0 {
        lemma_weighted_sum_bound(deltas, n - 1);
        let d = deltas[n - 1];
        let w = weight(n - 1);
        assert(-64 * w <= d * w <= 64 * w) by (nonlinear_arith)
            requires
                -64 <= d <= 64,
                1 <= w,
        ;
    }
}

/// Sum of the weights of the first `n` resources.
pub open spec fn weight_total(n: int) -> int
    decreases n,
{
    if n <= 0 {
        0
    } else {
        weight_total(n - 1) + weight(n - 1)
    }
}

/// Names and bounty curves that the game publishes to its clients.
#[derive(Clone)]
pub struct Config {
    pub version: &'static str,
    pub entity_attributes: [&'static str; ENTITY_ATTRIBUTES_SIZE],
    pub local_attributes: [&'static str; LOCAL_ATTRIBUTES_SIZE],
    /// Each redeemed bounty multiplies the cost of the next by this.
    pub bounty_cost_base: u64,
    /// Each redeemed bounty adds this to the reward of the next.
    pub bounty_reward_base: u64,
}

/// Cost of a bounty that was not redeemed before.
pub const BOUNTY_FIRST_COST: u64 = 20;

/// Cost of a bounty after `redeem_info` redemptions, for a cost base of `base`.
pub open spec fn bounty_cost(base: int, redeem_info: nat) -> int {
    BOUNTY_FIRST_COST * pow(base, redeem_info)
}

/// Reward of a bounty after `redeem_info` redemptions, for a reward base of `base`.
pub open spec fn bounty_reward(base: int, redeem_info: int) -> int {
    base * (redeem_info + 1)
}

impl Config {
    /// The configuration of the game: costs double, rewards grow by four.
    pub fn new() -> (config: Self)
        ensures
            config.version@ == "1.2"@,
            config.bounty_cost_base == 2,
            config.bounty_reward_base == 4,
            config.entity_attributes@.map_values(|name: &'static str| name@) == seq![
                "Level"@,
                "Speed"@,
                "Efficiency"@,
                "Producitivity"@,
            ],
            config.local_attributes@.map_values(|name: &'static str| name@) == seq![
                "Engery Crystal"@,
                "Instellar Mineral"@,
                "Biomass"@,
                "Quantum Foam"@,
                "Necrodermis"@,
                "Alien Floral"@,
                "Spice Melange"@,
                "Titanium"@,
            ],
    {
        let config = Config {
            version: "1.2",
            bounty_cost_base: 2,
            bounty_reward_base: 4,
            entity_attributes: ["Level", "Speed", "Efficiency", "Producitivity"],
            local_attributes: [
                "Engery Crystal",
                "Instellar Mineral",
                "Biomass",
                "Quantum Foam",
                "Necrodermis",
                "Alien Floral",
                "Spice Melange",
                "Titanium",
            ],
        };
        assert(config.entity_attributes@.map_values(|name: &'static str| name@) =~= seq![
            "Level"@,
            "Speed"@,
            "Efficiency"@,
            "Producitivity"@,
        ]);
        assert(config.local_attributes@.map_values(|name: &'static str| name@) =~= seq![
            "Engery Crystal"@,
            "Instellar Mineral"@,
            "Biomass"@,
            "Quantum Foam"@,
            "Necrodermis"@,
            "Alien Floral"@,
            "Spice Melange"@,
            "Titanium"@,
        ]);
        config
    }

    /// Whether the host advances the clock by itself.
    pub fn autotick() -> (auto: bool)
        ensures
            auto,
    {
        true
    }

    /// Cost of a bounty after `redeem_info` redemptions: 20 times the cost
    /// base to the power of `redeem_info`.
    pub fn get_bounty_cost(&self, redeem_info: u64) -> (cost: u64)
        requires
            bounty_cost(self.bounty_cost_base as int, redeem_info as nat) <= u64::MAX,
        ensures
            cost == bounty_cost(self.bounty_cost_base as int, redeem_info as nat),
    {
        let base = self.bounty_cost_base;
        let mut cost: u64 = 20;
        let mut i: u64 = 0;
        proof {
            lemma_pow0(base as int);
        }
        while i < redeem_info
            invariant
                i <= redeem_info,
                base == self.bounty_cost_base,
                cost == bounty_cost(base as int, i as nat),
                bounty_cost(base as int, redeem_info as nat) <= u64::MAX,
            decreases redeem_info - i,
        {
            proof {
                lemma_bounty_cost_step(base as int, i as nat, redeem_info as nat);
            }
            cost = base * cost;
            i += 1;
        }
        cost
    }

    /// Reward of a bounty after `redeem_info` redemptions: the reward base
    /// times one more than `redeem_info`.
    pub fn get_bounty_reward(&self, redeem_info: u64) -> (reward: u64)
        requires
            bounty_reward(self.bounty_reward_base as int, redeem_info as int) <= u64::MAX,
        ensures
            reward == bounty_reward(self.bounty_reward_base as int, redeem_info as int),
    {
        if self.bounty_reward_base == 0 {
            assert(bounty_reward(0, redeem_info as int) == 0) by (nonlinear_arith)
                requires
                    bounty_reward(0, redeem_info as int) == 0 * (redeem_info + 1),
            ;
            return 0;
        }
        assert(redeem_info + 1 <= u64::MAX) by (nonlinear_arith)
            requires
                self.bounty_reward_base >= 1,
                self.bounty_reward_base * (redeem_info + 1) <= u64::MAX,
        ;
        self.bounty_reward_base * (redeem_info + 1)
    }
}

/// One more redemption multiplies the cost by the base, and while the cost
/// after `n` redemptions fits a word, so does every cost before it.
proof fn lemma_bounty_cost_step(base: int, i: nat, n: nat)
    requires
        0 <= base,
        i < n,
        bounty_cost(base, n) <= u64::MAX,
    ensures
        bounty_cost(base, i + 1) == base * bounty_cost(base, i),
        bounty_cost(base, i + 1) <= u64::MAX,
{
    reveal(pow);
    assert(pow(base, i + 1) == base * pow(base, i));
    assert(20 * (base * pow(base, i)) == base * (20 * pow(base, i))) by (nonlinear_arith);
    if base == 0 {
        assert(base * pow(base, i) == 0) by (nonlinear_arith)
            requires
                base == 0,
        ;
    } else {
        lemma_pow_increases(base as nat, i + 1, n);
    }
}

} // verus!
