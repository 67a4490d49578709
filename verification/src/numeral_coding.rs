//! The mixed-radix numeral coder that carries the hidden payload.
//!
//! A digit is a pair `(value, bound)` with `value < bound`. The encoder turns
//! a sequence of digits into bytes; the decoder, told the bounds, turns the
//! bytes back into the values. Both keep a register below 2^16 between digits
//! and move whole bytes in and out of it.

use vstd::arithmetic::div_mod::lemma_fundamental_div_mod_converse_div;
use vstd::arithmetic::div_mod::lemma_fundamental_div_mod_converse_mod;
use vstd::arithmetic::power2::lemma2_to64;
use vstd::arithmetic::power2::lemma_pow2_unfold;
use vstd::arithmetic::power2::pow2;
use vstd::prelude::*;

verus! {

/// A digit is below its bound.
pub open spec fn valid_digit(digit: (u16, u16)) -> bool {
    digit.0 < digit.1
}

/// Every digit of the sequence is below its bound.
pub open spec fn valid_digits(digits: Seq<(u16, u16)>) -> bool {
    forall|i: int| 0 <= i < digits.len() ==> valid_digit(#[trigger] digits[i])
}

/// The values of a sequence of digits.
pub open spec fn digit_values(digits: Seq<(u16, u16)>) -> Seq<u16> {
    Seq::new(digits.len(), |i: int| digits[i].0)
}

/// The bounds of a sequence of digits.
pub open spec fn digit_bounds(digits: Seq<(u16, u16)>) -> Seq<u16> {
    Seq::new(digits.len(), |i: int| digits[i].1)
}

/// Brings a register back below 2^16: the register that is left, and the low
/// bytes that were moved out of it, lowest first.
pub open spec fn renorm(x: nat) -> (nat, Seq<u8>)
    decreases x,
{
    if x >= 65536 {
        let r = renorm(x / 256);
        (r.0, seq![(x % 256) as u8] + r.1)
    } else {
        (x, Seq::empty())
    }
}

/// The encoder after it has taken in `digits`, last digit first: its register,
/// and the bytes it has moved out so far, in the order in which they left.
pub open spec fn encode_state(digits: Seq<(u16, u16)>) -> (nat, Seq<u8>)
    decreases digits.len(),
{
    if digits.len() == 0 {
        (0, Seq::empty())
    } else {
        let prev = encode_state(digits.drop_first());
        let r = renorm(prev.0 * (digits[0].1 as nat) + (digits[0].0 as nat));
        (r.0, prev.1 + r.1)
    }
}

/// The bytes of `x`, lowest first, without leading zeros.
pub open spec fn le_digits(x: nat) -> Seq<u8>
    decreases x,
{
    if x == 0 {
        Seq::empty()
    } else {
        seq![(x % 256) as u8] + le_digits(x / 256)
    }
}

/// The bytes that stand for `digits`: what is left in the register, highest
/// byte first, then the bytes that were moved out, last one first.
pub open spec fn encode_digits(digits: Seq<(u16, u16)>) -> Seq<u8> {
    let s = encode_state(digits);
    (s.1 + le_digits(s.0)).reverse()
}

/// Moves bytes from the input into the register until the register reaches
/// `bound * 256` or the input is used up: the register and the input left.
pub open spec fn refill(x: nat, rest: Seq<u8>, bound: nat) -> (nat, Seq<u8>)
    decreases rest.len(),
{
    if x < bound * 256 && rest.len() > 0 {
        refill(x * 256 + rest[0] as nat, rest.drop_first(), bound)
    } else {
        (x, rest)
    }
}

/// One digit taken out of the register `x` and the input `rest`: the value,
/// the register afterwards and the input afterwards.
pub open spec fn decode_step(x: nat, rest: Seq<u8>, bound: nat) -> (nat, nat, Seq<u8>) {
    let f = refill(x, rest, bound);
    (f.0 % bound, f.0 / bound, f.1)
}

/// The values that come out when one digit is decoded for each of `bounds`,
/// starting from the register `x` and the input `rest`.
pub open spec fn decode_all(x: nat, rest: Seq<u8>, bounds: Seq<u16>) -> Seq<u16>
    decreases bounds.len(),
{
    if bounds.len() == 0 {
        Seq::empty()
    } else {
        let step = decode_step(x, rest, bounds[0] as nat);
        seq![step.0 as u16] + decode_all(step.1, step.2, bounds.drop_first())
    }
}

/// The largest `k` with `2^k <= n` (0 for `n` below 2).
pub open spec fn log2_floor(n: nat) -> nat
    decreases n,
{
    if n <= 1 {
        0
    } else {
        1 + log2_floor(n / 2)
    }
}

/// How much one digit with the given bound can carry, in quarters of a bit,
/// rounded down: the whole bits of the bound's fourth power.
pub open spec fn digit_capacity(bound: nat) -> nat {
    log2_floor(bound * bound * (bound * bound))
}

/// What a decoder holds: the register, the input that it has not read yet,
/// and what the digits decoded so far could carry, in quarters of a bit.
pub struct DecoderState {
    pub register: nat,
    pub remaining: Seq<u8>,
    pub capacity: nat,
}

/// A decoder that has read nothing of `input` yet.
pub open spec fn initial_state(input: Seq<u8>) -> DecoderState {
    DecoderState { register: 0, remaining: input, capacity: 0 }
}

/// One digit below `bound` taken out of a decoder: the value, and what the
/// decoder holds afterwards.
pub open spec fn draw(state: DecoderState, bound: nat) -> (nat, DecoderState) {
    let step = decode_step(state.register, state.remaining, bound);
    (
        step.0,
        DecoderState {
            register: step.1,
            remaining: step.2,
            capacity: capacity_sum(state.capacity, digit_capacity(bound)),
        },
    )
}

/// The sum of two capacities, held at the largest `usize`.
pub open spec fn capacity_sum(a: nat, b: nat) -> nat {
    if a + b > usize::MAX {
        usize::MAX as nat
    } else {
        a + b
    }
}

proof fn lemma_renorm_bounds(x: nat)
    ensures
        renorm(x).0 < 65536,
        x >= 65536 ==> renorm(x).0 >= 256,
    decreases x,
{
    if x >= 65536 {
        lemma_renorm_bounds(x / 256);
    }
}

proof fn lemma_encode_state_bounds(digits: Seq<(u16, u16)>)
    requires
        valid_digits(digits),
    ensures
        encode_state(digits).0 < 65536,
        encode_state(digits).0 < 256 ==> encode_state(digits).1.len() == 0,
    decreases digits.len(),
{
    if digits.len() > 0 {
        let rest = digits.drop_first();
        assert(valid_digits(rest)) by {
            assert forall|i: int| 0 <= i < rest.len() implies valid_digit(#[trigger] rest[i]) by {
                assert(rest[i] == digits[i + 1]);
            }
        }
        lemma_encode_state_bounds(rest);
        let prev = encode_state(rest);
        let b = digits[0].1 as nat;
        let v = digits[0].0 as nat;
        assert(valid_digit(digits[0]));
        let big = prev.0 * b + v;
        lemma_renorm_bounds(big);
        if big < 256 {
            assert(prev.0 < 256) by (nonlinear_arith)
                requires
                    prev.0 * b + v < 256,
                    b >= 1,
            ;
        }
    }
}

proof fn lemma_reverse_push_front(b: u8, s: Seq<u8>)
    ensures
        (seq![b] + s).reverse() =~= s.reverse() + seq![b],
{
}

proof fn lemma_reverse_concat(s: Seq<u8>, t: Seq<u8>)
    ensures
        (s + t).reverse() =~= t.reverse() + s.reverse(),
{
}

/// Refilling takes back the bytes that `renorm` moved out.
proof fn lemma_refill_renorm(big: nat, tail: Seq<u8>, bound: nat)
    requires
        bound >= 1,
        big < bound * 65536,
    ensures
        refill(renorm(big).0, renorm(big).1.reverse() + tail, bound) == refill(big, tail, bound),
    decreases big,
{
    if big >= 65536 {
        let r = renorm(big / 256);
        let low = (big % 256) as u8;
        let tail2 = seq![low] + tail;
        lemma_refill_renorm(big / 256, tail2, bound);
        lemma_reverse_push_front(low, r.1);
        assert(renorm(big).1.reverse() + tail =~= r.1.reverse() + tail2);
        assert(tail2.drop_first() =~= tail);
        assert(refill(big / 256, tail2, bound) == refill(big, tail, bound));
    } else {
        assert(renorm(big).1.reverse() + tail =~= tail);
    }
}

/// Refilling an empty register takes in the bytes of a flushed register.
proof fn lemma_refill_flush(x: nat, tail: Seq<u8>, bound: nat)
    requires
        bound >= 1,
        x < bound * 65536,
    ensures
        refill(0, le_digits(x).reverse() + tail, bound) == refill(x, tail, bound),
    decreases x,
{
    if x > 0 {
        let low = (x % 256) as u8;
        let tail2 = seq![low] + tail;
        lemma_refill_flush(x / 256, tail2, bound);
        lemma_reverse_push_front(low, le_digits(x / 256));
        assert(le_digits(x).reverse() + tail =~= le_digits(x / 256).reverse() + tail2);
        assert(tail2.drop_first() =~= tail);
        assert(refill(x / 256, tail2, bound) == refill(x, tail, bound));
    } else {
        assert(le_digits(x).reverse() + tail =~= tail);
    }
}

/// Decoding the first digit from where the encoder stood gives its value and
/// leaves the decoder where the encoder stood before that digit.
proof fn lemma_decode_first(digits: Seq<(u16, u16)>)
    requires
        valid_digits(digits),
        digits.len() > 0,
    ensures
        valid_digits(digits.drop_first()),
        decode_step(
            encode_state(digits).0,
            encode_state(digits).1.reverse(),
            digits[0].1 as nat,
        ) == (
            digits[0].0 as nat,
            encode_state(digits.drop_first()).0,
            encode_state(digits.drop_first()).1.reverse(),
        ),
        refill(0, encode_digits(digits), digits[0].1 as nat) == refill(
            encode_state(digits).0,
            encode_state(digits).1.reverse(),
            digits[0].1 as nat,
        ),
{
    let rest = digits.drop_first();
    assert(valid_digits(rest)) by {
        assert forall|i: int| 0 <= i < rest.len() implies valid_digit(#[trigger] rest[i]) by {
            assert(rest[i] == digits[i + 1]);
        }
    }
    lemma_encode_state_bounds(rest);
    lemma_encode_state_bounds(digits);
    let prev = encode_state(rest);
    let s = encode_state(digits);
    let b = digits[0].1 as nat;
    let v = digits[0].0 as nat;
    assert(valid_digit(digits[0]));
    let big = prev.0 * b + v;
    let r = renorm(big);
    let tail = prev.1.reverse();
    assert(big < b * 65536) by (nonlinear_arith)
        requires
            big == prev.0 * b + v,
            prev.0 < 65536,
            v < b,
    ;
    lemma_refill_renorm(big, tail, b);
    lemma_reverse_concat(prev.1, r.1);
    assert(s.1.reverse() =~= r.1.reverse() + tail);
    if big < b * 256 {
        assert(prev.0 < 256) by (nonlinear_arith)
            requires
                prev.0 * b + v < b * 256,
                b >= 1,
        ;
        assert(tail.len() == 0);
    }
    assert(refill(big, tail, b) == (big, tail));
    lemma_fundamental_div_mod_converse_div(big as int, b as int, prev.0 as int, v as int);
    lemma_fundamental_div_mod_converse_mod(big as int, b as int, prev.0 as int, v as int);
    lemma_refill_flush(s.0, s.1.reverse(), b);
    lemma_reverse_concat(s.1, le_digits(s.0));
    assert(encode_digits(digits) =~= le_digits(s.0).reverse() + s.1.reverse());
}

proof fn lemma_decode_from_state(digits: Seq<(u16, u16)>)
    requires
        valid_digits(digits),
    ensures
        decode_all(
            encode_state(digits).0,
            encode_state(digits).1.reverse(),
            digit_bounds(digits),
        ) == digit_values(digits),
    decreases digits.len(),
{
    if digits.len() > 0 {
        let rest = digits.drop_first();
        lemma_decode_first(digits);
        lemma_decode_from_state(rest);
        assert(digit_bounds(digits).drop_first() =~= digit_bounds(rest));
        assert(digit_values(digits) =~= seq![digits[0].0] + digit_values(rest));
    } else {
        assert(digit_values(digits) =~= Seq::<u16>::empty());
    }
}

/// Decoding what was encoded, with the same bounds in the same order, gives
/// back the values that were encoded.
pub proof fn lemma_decode_encode(digits: Seq<(u16, u16)>)
    requires
        valid_digits(digits),
    ensures
        decode_all(0, encode_digits(digits), digit_bounds(digits)) == digit_values(digits),
{
    if digits.len() > 0 {
        let rest = digits.drop_first();
        lemma_decode_first(digits);
        lemma_decode_from_state(rest);
        assert(digit_bounds(digits).drop_first() =~= digit_bounds(rest));
        assert(digit_values(digits) =~= seq![digits[0].0] + digit_values(rest));
    } else {
        assert(digit_values(digits) =~= Seq::<u16>::empty());
    }
}

/// A byte string without the zeros at its front.
pub open spec fn without_leading_zeros(bytes: Seq<u8>) -> Seq<u8>
    decreases bytes.len(),
{
    if bytes.len() > 0 && bytes[0] == 0 {
        without_leading_zeros(bytes.drop_first())
    } else {
        bytes
    }
}

/// What a decoder still holds, as bytes: its register, highest byte first,
/// and the input that it has not read.
pub open spec fn held_bytes(state: DecoderState) -> Seq<u8> {
    le_digits(state.register).reverse() + state.remaining
}

/// A decoder between two digits, once it has read anything: the register is
/// below 2^16, and it is at least 2^8 unless the input is used up.
pub open spec fn settled(state: DecoderState) -> bool {
    state.register < 65536 && (state.register >= 256 || state.remaining.len() == 0)
}

/// An encoder that has taken in `digits` stands where the decoder `state`
/// stands: the same register, and as bytes moved out the input that the
/// decoder has not read, last byte first.
pub open spec fn mirrors(state: DecoderState, digits: Seq<(u16, u16)>) -> bool {
    encode_state(digits) == (state.register, state.remaining.reverse())
}

/// The digits that come out when one digit is decoded for each of `bounds`,
/// each with its bound.
pub open spec fn decoded_digits(state: DecoderState, bounds: Seq<u16>) -> Seq<(u16, u16)>
    decreases bounds.len(),
{
    if bounds.len() == 0 {
        Seq::empty()
    } else {
        let drawn = draw(state, bounds[0] as nat);
        seq![(drawn.0 as u16, bounds[0])] + decoded_digits(drawn.1, bounds.drop_first())
    }
}

/// What a decoder holds when one digit has been decoded for each of `bounds`.
pub open spec fn state_after(state: DecoderState, bounds: Seq<u16>) -> DecoderState
    decreases bounds.len(),
{
    if bounds.len() == 0 {
        state
    } else {
        state_after(draw(state, bounds[0] as nat).1, bounds.drop_first())
    }
}

/// The bytes of a register are those that `renorm` moves out and those of
/// the register that it leaves.
proof fn lemma_renorm_flush(x: nat)
    ensures
        renorm(x).1 + le_digits(renorm(x).0) == le_digits(x),
    decreases x,
{
    if x >= 65536 {
        lemma_renorm_flush(x / 256);
        let r = renorm(x / 256);
        assert((seq![(x % 256) as u8] + r.1) + le_digits(r.0) =~= seq![(x % 256) as u8] + (r.1
            + le_digits(r.0)));
    } else {
        assert(renorm(x).1 + le_digits(renorm(x).0) =~= le_digits(x));
    }
}

/// `renorm` moves out what `refill` took in: from a register of at least 2^8
/// (or with no input to take in), the bytes that were read, last one first,
/// and then what `renorm` moves out of the register itself.
proof fn lemma_renorm_refill(y: nat, rest: Seq<u8>, bound: nat)
    requires
        y >= 256 || rest.len() == 0,
    ensures
        refill(y, rest, bound).1.len() <= rest.len(),
        rest.skip(rest.len() - refill(y, rest, bound).1.len()) == refill(y, rest, bound).1,
        renorm(refill(y, rest, bound).0) == (
            renorm(y).0,
            rest.take(rest.len() - refill(y, rest, bound).1.len()).reverse() + renorm(y).1,
        ),
    decreases rest.len(),
{
    let after = refill(y, rest, bound);
    if y < bound * 256 && rest.len() > 0 {
        let next = y * 256 + rest[0] as nat;
        let shorter = rest.drop_first();
        lemma_renorm_refill(next, shorter, bound);
        let count = rest.len() - after.1.len();
        assert(shorter.skip(shorter.len() - after.1.len()) =~= rest.skip(count));
        assert(next / 256 == y && next % 256 == rest[0]);
        lemma_reverse_push_front(rest[0], shorter.take(count - 1));
        assert(rest.take(count) =~= seq![rest[0]] + shorter.take(count - 1));
        assert(shorter.take(count - 1).reverse() + (seq![rest[0]] + renorm(y).1) =~= (
        shorter.take(count - 1).reverse() + seq![rest[0]]) + renorm(y).1);
    } else {
        assert(rest.skip(rest.len() as int - rest.len()) =~= rest);
        assert(rest.take(0).reverse() + renorm(y).1 =~= renorm(y).1);
    }
}

/// Reading into a register that is not 0 adds the bytes read behind its own.
proof fn lemma_refill_held(y: nat, rest: Seq<u8>, bound: nat)
    requires
        y > 0,
    ensures
        le_digits(refill(y, rest, bound).0).reverse() + refill(y, rest, bound).1 == le_digits(
            y,
        ).reverse() + rest,
    decreases rest.len(),
{
    if y < bound * 256 && rest.len() > 0 {
        let next = y * 256 + rest[0] as nat;
        let shorter = rest.drop_first();
        lemma_refill_held(next, shorter, bound);
        assert(next / 256 == y && next % 256 == rest[0]);
        lemma_reverse_push_front(rest[0], le_digits(y));
        assert((le_digits(y).reverse() + seq![rest[0]]) + shorter =~= le_digits(y).reverse()
            + rest);
    }
}

/// Reading into an empty register leaves the zeros at the front of the input
/// out.
proof fn lemma_refill_fresh(rest: Seq<u8>, bound: nat)
    requires
        bound >= 1,
    ensures
        le_digits(refill(0, rest, bound).0).reverse() + refill(0, rest, bound).1
            == without_leading_zeros(rest),
    decreases rest.len(),
{
    if rest.len() > 0 {
        let shorter = rest.drop_first();
        if rest[0] == 0 {
            lemma_refill_fresh(shorter, bound);
        } else {
            lemma_refill_held(rest[0] as nat, shorter, bound);
            assert(le_digits(rest[0] as nat) =~= seq![rest[0]]) by {
                assert(le_digits(0) =~= Seq::<u8>::empty());
            }
            assert(seq![rest[0]].reverse() =~= seq![rest[0]]);
            assert(seq![rest[0]] + shorter =~= rest);
        }
    } else {
        assert(le_digits(0).reverse() + rest =~= rest);
    }
}

/// After a digit has been drawn, the decoder is settled.
pub proof fn lemma_settled_after_draw(state: DecoderState, bound: nat)
    requires
        state.register < 65536,
        1 <= bound <= 65535,
    ensures
        settled(draw(state, bound).1),
        draw(state, bound).0 < bound,
{
    lemma_refill_bounds(state.register, state.remaining, bound);
    let filled = refill(state.register, state.remaining, bound);
    assert(filled.0 / bound < 65536 && filled.0 % bound < bound && (filled.0 >= bound * 256
        ==> filled.0 / bound >= 256)) by (nonlinear_arith)
        requires
            filled.0 < bound * 65536,
            bound >= 1,
    ;
}

/// What `refill` gives from a register below 2^16: less than 2^16 times the
/// bound, and at least 2^8 times the bound unless the input is used up.
proof fn lemma_refill_bounds(x: nat, rest: Seq<u8>, bound: nat)
    requires
        x < bound * 65536,
        bound >= 1,
    ensures
        refill(x, rest, bound).0 < bound * 65536,
        refill(x, rest, bound).0 >= bound * 256 || refill(x, rest, bound).1.len() == 0,
    decreases rest.len(),
{
    if x < bound * 256 && rest.len() > 0 {
        lemma_refill_bounds(x * 256 + rest[0] as nat, rest.drop_first(), bound);
    }
}

/// The register after a digit, times the bound, and the digit give the
/// register from which the digit was taken.
proof fn lemma_draw_arithmetic(state: DecoderState, bound: nat)
    requires
        bound >= 1,
    ensures
        draw(state, bound).1.register * bound + draw(state, bound).0 == refill(
            state.register,
            state.remaining,
            bound,
        ).0,
{
    let filled = refill(state.register, state.remaining, bound).0;
    vstd::arithmetic::div_mod::lemma_fundamental_div_mod(filled as int, bound as int);
    assert(bound * (filled / bound) == (filled / bound) * bound) by (nonlinear_arith);
}

/// Where an encoder that has taken in `later` stands where the decoder
/// stands after a digit, the encoder that has taken in the digit too stands
/// where the decoder stood before it, if the decoder was settled then.
pub proof fn lemma_draw_mirrors(state: DecoderState, bound: u16, later: Seq<(u16, u16)>)
    requires
        settled(state),
        bound >= 1,
        mirrors(draw(state, bound as nat).1, later),
    ensures
        mirrors(state, seq![(draw(state, bound as nat).0 as u16, bound)] + later),
{
    let drawn = draw(state, bound as nat);
    let filled = refill(state.register, state.remaining, bound as nat);
    let digits = seq![(drawn.0 as u16, bound)] + later;
    lemma_settled_after_draw(state, bound as nat);
    lemma_draw_arithmetic(state, bound as nat);
    lemma_renorm_refill(state.register, state.remaining, bound as nat);
    assert(digits.drop_first() =~= later);
    let count = state.remaining.len() - filled.1.len();
    let read = state.remaining.take(count);
    lemma_reverse_concat(read, filled.1);
    assert(read + filled.1 =~= state.remaining);
    assert(read.reverse() + Seq::<u8>::empty() =~= read.reverse());
}

/// Where an encoder that has taken in `later` stands where the decoder
/// stands after its first digit, the bytes for the digit and `later` are the
/// input of the decoder without the zeros at its front.
pub proof fn lemma_first_draw_gives_input(input: Seq<u8>, bound: u16, later: Seq<(u16, u16)>)
    requires
        bound >= 1,
        mirrors(draw(initial_state(input), bound as nat).1, later),
    ensures
        encode_digits(seq![(draw(initial_state(input), bound as nat).0 as u16, bound)] + later)
            == without_leading_zeros(input),
{
    let state = initial_state(input);
    let drawn = draw(state, bound as nat);
    let filled = refill(0, input, bound as nat);
    let digits = seq![(drawn.0 as u16, bound)] + later;
    lemma_settled_after_draw(state, bound as nat);
    lemma_draw_arithmetic(state, bound as nat);
    lemma_refill_fresh(input, bound as nat);
    lemma_renorm_flush(filled.0);
    assert(digits.drop_first() =~= later);
    let s = encode_state(digits);
    let r = renorm(filled.0);
    assert(s.1 + le_digits(s.0) =~= filled.1.reverse() + (r.1 + le_digits(r.0)));
    lemma_reverse_concat(filled.1.reverse(), le_digits(filled.0));
    assert(filled.1.reverse().reverse() =~= filled.1);
}

/// Bytes that are decoded until the decoder has used them up, with no digit
/// left in its register, are encoded back from the digits, but for zeros at
/// the front.
pub proof fn lemma_encode_decode(input: Seq<u8>, bounds: Seq<u16>)
    requires
        forall|i: int| 0 <= i < bounds.len() ==> bounds[i] >= 1,
        state_after(initial_state(input), bounds).register == 0,
        state_after(initial_state(input), bounds).remaining.len() == 0,
    ensures
        encode_digits(decoded_digits(initial_state(input), bounds)) == without_leading_zeros(
            input,
        ),
{
    let state = initial_state(input);
    if bounds.len() == 0 {
        assert(encode_digits(Seq::empty()) =~= Seq::<u8>::empty()) by {
            assert(le_digits(0) =~= Seq::<u8>::empty());
        }
    } else {
        let drawn = draw(state, bounds[0] as nat);
        lemma_settled_after_draw(state, bounds[0] as nat);
        lemma_decoded_digits_mirror(drawn.1, bounds.drop_first());
        lemma_first_draw_gives_input(
            input,
            bounds[0],
            decoded_digits(drawn.1, bounds.drop_first()),
        );
    }
}

/// The digits that a settled decoder gives until it has run dry bring an
/// encoder to where the decoder stood.
proof fn lemma_decoded_digits_mirror(state: DecoderState, bounds: Seq<u16>)
    requires
        settled(state),
        forall|i: int| 0 <= i < bounds.len() ==> bounds[i] >= 1,
        state_after(state, bounds).register == 0,
        state_after(state, bounds).remaining.len() == 0,
    ensures
        mirrors(state, decoded_digits(state, bounds)),
    decreases bounds.len(),
{
    if bounds.len() == 0 {
        assert(state.remaining.reverse() =~= Seq::<u8>::empty());
    } else {
        let drawn = draw(state, bounds[0] as nat);
        lemma_settled_after_draw(state, bounds[0] as nat);
        lemma_decoded_digits_mirror(drawn.1, bounds.drop_first());
        lemma_draw_mirrors(state, bounds[0], decoded_digits(drawn.1, bounds.drop_first()));
    }
}

/// Collects digits and turns them into bytes at the end.
pub struct Encoder {
    values: Vec<(u16, u16)>,
}

impl View for Encoder {
    type V = Seq<(u16, u16)>;

    closed spec fn view(&self) -> Seq<(u16, u16)> {
        self.values@
    }
}

impl Encoder {
    pub fn new() -> (encoder: Self)
        ensures
            encoder@ == Seq::<(u16, u16)>::empty(),
    {
        Self { values: Vec::new() }
    }

    /// Appends the digit `value` with the bound `max_value`.
    pub fn add_value(&mut self, value: u16, max_value: u16)
        requires
            value < max_value,
        ensures
            final(self)@ == old(self)@.push((value, max_value)),
    {
        self.values.push((value, max_value));
    }

    /// How many digits have been added.
    pub fn len(&self) -> (n: usize)
        ensures
            n == self@.len(),
    {
        self.values.len()
    }

    /// The bytes that stand for the digits added so far, and from which a
    /// decoder that is told the same bounds gets the values back.
    pub fn finish(self) -> (encoded: Vec<u8>)
        ensures
            encoded@ == encode_digits(self@),
    {
        let mut emitted: Vec<u8> = Vec::new();
        let mut x: u32 = 0;
        let mut i: usize = self.values.len();
        assert(self.values@.skip(i as int) =~= Seq::<(u16, u16)>::empty());
        while i > 0
            invariant
                i <= self.values@.len(),
                x < 65536,
                encode_state(self.values@.skip(i as int)) == (x as nat, emitted@),
            decreases i,
        {
            i -= 1;
            let (val, max_val) = self.values[i];
            let ghost prev_emitted = emitted@;
            proof {
                assert(self.values@.skip(i as int).drop_first() =~= self.values@.skip(i + 1));
                assert(x * max_val + val < 0x1_0000_0000) by (nonlinear_arith)
                    requires
                        x < 65536,
                        max_val <= 65535,
                        val <= 65535,
                ;
            }
            x = x * (max_val as u32) + (val as u32);
            let ghost big = x as nat;
            while x >= 65536
                invariant
                    renorm(big).0 == renorm(x as nat).0,
                    prev_emitted + renorm(big).1 =~= emitted@ + renorm(x as nat).1,
                decreases x,
            {
                emitted.push((x % 256) as u8);
                x = x / 256;
            }
        }
        assert(self.values@.skip(0) =~= self.values@);
        let ghost state = encode_state(self.values@);
        while x > 0
            invariant
                state.1 + le_digits(state.0) =~= emitted@ + le_digits(x as nat),
            decreases x,
        {
            emitted.push((x % 256) as u8);
            x = x / 256;
        }
        let mut encoded: Vec<u8> = Vec::new();
        let mut j: usize = emitted.len();
        while j > 0
            invariant
                j <= emitted@.len(),
                encoded@.len() == emitted@.len() - j,
                forall|k: int| 0 <= k < encoded@.len() ==> encoded@[k] == emitted@[emitted@.len() - 1 - k],
            decreases j,
        {
            j -= 1;
            encoded.push(emitted[j]);
        }
        assert(encoded@ =~= emitted@.reverse());
        encoded
    }
}

/// Takes digits out of a byte string, one for each bound it is told.
pub struct Decoder<'a> {
    data: &'a [u8],
    pos: usize,
    x: u32,
    available_quarters: usize,
}

impl<'a> View for Decoder<'a> {
    type V = DecoderState;

    closed spec fn view(&self) -> DecoderState {
        DecoderState {
            register: self.x as nat,
            remaining: self.data@.skip(self.pos as int),
            capacity: self.available_quarters as nat,
        }
    }
}

impl<'a> Decoder<'a> {
    #[verifier::type_invariant]
    spec fn in_range(self) -> bool {
        self.pos <= self.data@.len() && self.x < 65536
    }

    pub fn new(data: &'a [u8]) -> (decoder: Self)
        ensures
            decoder@ == initial_state(data@),
    {
        assert(data@.skip(0) =~= data@);
        Self { data, pos: 0, x: 0, available_quarters: 0 }
    }

    /// Takes the next digit, which is below `max_value`, out of the input.
    /// Once the input is used up the register runs down to zero, and every
    /// further digit is zero.
    pub fn decode_value(&mut self, max_value: u16) -> (value: u16)
        requires
            max_value >= 1,
        ensures
            value < max_value,
            (value as nat, final(self)@) == draw(old(self)@, max_value as nat),
    {
        proof {
            use_type_invariant(&*self);
        }
        let gained = quarter_bits(max_value);
        let bound: u32 = max_value as u32;
        let data = self.data;
        let mut x: u32 = self.x;
        let mut pos: usize = self.pos;
        while x < bound * 256 && pos < data.len()
            invariant
                pos <= data@.len(),
                1 <= bound <= 65535,
                x < bound * 65536,
                refill(x as nat, data@.skip(pos as int), bound as nat) == refill(
                    old(self)@.register,
                    old(self)@.remaining,
                    bound as nat,
                ),
            decreases data@.len() - pos,
        {
            proof {
                assert(data@.skip(pos as int).drop_first() =~= data@.skip(pos + 1));
            }
            x = x * 256 + data[pos] as u32;
            pos += 1;
        }
        proof {
            assert(x / bound < 65536) by (nonlinear_arith)
                requires
                    x < bound * 65536,
                    bound >= 1,
            ;
            assert(x % bound < bound) by (nonlinear_arith)
                requires
                    bound >= 1,
            ;
        }
        let value = (x % bound) as u16;
        self.x = x / bound;
        self.pos = pos;
        self.available_quarters = if gained > usize::MAX - self.available_quarters {
            usize::MAX
        } else {
            self.available_quarters + gained
        };
        value
    }

    /// How many whole bytes the digits decoded so far could carry: a thirty-
    /// second of the capacity in quarters of a bit.
    pub fn get_available_bytes(&self) -> (n: usize)
        ensures
            n == self@.capacity / 32,
    {
        self.available_quarters / 32
    }
}

/// The capacity of one digit with the given bound, in quarters of a bit.
pub fn quarter_bits(bound: u16) -> (quarters: usize)
    ensures
        quarters == digit_capacity(bound as nat),
        quarters <= 64,
{
    let b: u64 = bound as u64;
    assert(b * b <= 0xFFFF_FFFF) by (nonlinear_arith)
        requires
            b <= 65535,
    ;
    let square: u64 = b * b;
    assert(square * square <= 0xFFFF_FFFF_FFFF_FFFF) by (nonlinear_arith)
        requires
            square <= 0xFFFF_FFFF,
    ;
    let mut v: u64 = square * square;
    let mut k: usize = 0;
    proof {
        lemma2_to64();
    }
    while v > 1
        invariant
            k <= 64,
            v < pow2((64 - k) as nat),
            k + log2_floor(v as nat) == digit_capacity(bound as nat),
        decreases v,
    {
        proof {
            if k == 64 {
                lemma2_to64();
            } else {
                lemma_pow2_unfold((64 - k) as nat);
            }
        }
        v = v / 2;
        k += 1;
    }
    k
}

} // verus!
