//! Task identifiers: the creation time in decimal, a hyphen, and twelve
//! characters drawn from a generator that is seeded by the host.

use vstd::prelude::*;
use crate::text::{decimal, push_decimal};

verus! {

/// The number of drawn characters in a task id.
pub const TASK_ID_LENGTH: usize = 12;

/// The number of characters to draw from.
pub const CHARSET_SIZE: i32 = 62;

/// The least number of seed bytes that the generator takes.
pub const SEED_BYTES: usize = 8;

/// The generator of `near_rng`, whose state Verus does not look into.
#[verifier::external_type_specification]
#[verifier::external_body]
pub struct ExRng(near_rng::Rng);

/// `near_rng::Rng::new` builds its state from the first eight bytes of the
/// seed, which it reads by index: a shorter seed is left out. Nothing is
/// claimed of the generator that comes back.
pub assume_specification[ near_rng::Rng::new ](random_vec_seed: &Vec<u8>) -> (rng: near_rng::Rng)
    requires
        random_vec_seed.len() >= 8,
;

/// `near_rng::Rng::rand_range_i32` adds to `a` a number below `b - a`, which
/// it gets by reducing a drawn `u32` modulo `b - a`: the result lies in
/// `a..b`. An empty range, and one wider than an `i32`, are left out.
pub assume_specification[ near_rng::Rng::rand_range_i32 ](
    rng: &mut near_rng::Rng,
    a: i32,
    b: i32,
) -> (r: i32)
    requires
        a < b,
        b - a <= i32::MAX,
    ensures
        a <= r < b,
;

/// The characters that a draw picks from: capitals, small letters, digits.
pub open spec fn charset() -> Seq<char> {
    "ABCDEFGHIJKLMNOPQRSTUVWXYZabcdefghijklmnopqrstuvwxyz0123456789"@
}

/// Whether each of `draws` picks a character of the charset.
pub open spec fn in_charset(draws: Seq<i32>) -> bool {
    forall|i: int| 0 <= i < draws.len() ==> 0 <= #[trigger] draws[i] < CHARSET_SIZE
}

/// The characters that `draws` pick, in order.
pub open spec fn drawn_text(draws: Seq<i32>) -> Seq<char> {
    Seq::new(draws.len(), |i: int| charset()[draws[i] as int])
}

/// The id of a task created at `timestamp` for which `draws` were drawn.
pub open spec fn task_id_text(timestamp: u64, draws: Seq<i32>) -> Seq<char> {
    decimal(timestamp as nat) + seq!['-'] + drawn_text(draws)
}

/// Whether `id` is an id for `timestamp`: one that twelve draws from the
/// charset give.
pub open spec fn is_task_id(id: Seq<char>, timestamp: u64) -> bool {
    exists|draws: Seq<i32>|
        draws.len() == TASK_ID_LENGTH && in_charset(draws) && id == #[trigger] task_id_text(
            timestamp,
            draws,
        )
}

/// The id of a task created at `timestamp` for which `draws` were drawn.
pub fn task_id_from_draws(timestamp: u64, draws: &Vec<i32>) -> (id: String)
    requires
        in_charset(draws@),
    ensures
        id@ == task_id_text(timestamp, draws@),
{
    let mut id = String::new();
    push_decimal(&mut id, timestamp as u128);
    proof {
        reveal_strlit("-");
    }
    id.append("-");
    let charset = "ABCDEFGHIJKLMNOPQRSTUVWXYZabcdefghijklmnopqrstuvwxyz0123456789";
    proof {
        reveal_strlit("ABCDEFGHIJKLMNOPQRSTUVWXYZabcdefghijklmnopqrstuvwxyz0123456789");
    }
    let ghost head = id@;
    assert(head =~= decimal(timestamp as nat) + seq!['-']);
    let mut i: usize = 0;
    while i < draws.len()
        invariant
            i <= draws.len(),
            in_charset(draws@),
            charset@ == self::charset(),
            charset@.len() == 62,
            charset.is_ascii(),
            id@ == head + drawn_text(draws@.take(i as int)),
        decreases draws.len() - i,
    {
        let at: usize = draws[i] as usize;
        let one = charset.substring_ascii(at, at + 1);
        id.append(one);
        assert(id@ =~= head + drawn_text(draws@.take(i + 1))) by {
            assert(one@ =~= seq![self::charset()[draws@[i as int] as int]]);
            assert(drawn_text(draws@.take(i + 1)) =~= drawn_text(draws@.take(i as int)).push(
                self::charset()[draws@[i as int] as int],
            ));
        }
        i += 1;
    }
    assert(draws@.take(i as int) =~= draws@);
    id
}

/// Twelve draws from a generator seeded with `seed`.
fn draw_indices(seed: &Vec<u8>) -> (draws: Vec<i32>)
    requires
        seed.len() >= SEED_BYTES,
    ensures
        draws.len() == TASK_ID_LENGTH,
        in_charset(draws@),
{
    let mut rng = near_rng::Rng::new(seed);
    let mut draws: Vec<i32> = Vec::new();
    while draws.len() < TASK_ID_LENGTH
        invariant
            draws.len() <= TASK_ID_LENGTH,
            in_charset(draws@),
        decreases TASK_ID_LENGTH - draws.len(),
    {
        let index: i32 = rng.rand_range_i32(0, CHARSET_SIZE);
        draws.push(index);
    }
    draws
}

/// A fresh id for a task created at `timestamp`, drawn from a generator that
/// is seeded with `seed`. A seed of fewer than eight bytes gives no id.
pub fn generate_task_id(timestamp: u64, seed: &Vec<u8>) -> (id: Option<String>)
    ensures
        id is Some <==> seed.len() >= SEED_BYTES,
        id matches Some(text) ==> is_task_id(text@, timestamp),
{
    if seed.len() < SEED_BYTES {
        return None;
    }
    let draws = draw_indices(seed);
    let id = task_id_from_draws(timestamp, &draws);
    Some(id)
}

} // verus!
