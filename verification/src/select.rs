//! Choosing one fortune: by a seed, the same one each time, or by chance.
use vstd::prelude::*;
use rand::seq::SliceRandom;
use rand::SeedableRng;
use crate::fortune::record_views;
use crate::fortune::Fortune;
use crate::fortune::Record;

verus! {

/// The place that a generator seeded with `seed` chooses first among `len`
/// places, counted from 0.
pub uninterp spec fn seeded_index(seed: u64, len: nat) -> nat;

/// The text that `seed` chooses among `records`.
pub open spec fn picked_text(records: Seq<Record>, seed: u64) -> Option<Seq<char>> {
    if records.len() == 0 {
        None
    } else {
        Some(records[seeded_index(seed, records.len()) as int].text)
    }
}

/// The text of what was chosen.
pub open spec fn text_view(chosen: Option<&Fortune>) -> Option<Seq<char>> {
    match chosen {
        Some(fortune) => Some(fortune.text@),
        None => None,
    }
}

/// The text of a string that may be there.
pub open spec fn option_view(text: Option<String>) -> Option<Seq<char>> {
    match text {
        Some(text) => Some(text@),
        None => None,
    }
}

/// True where `chosen` is the choice of the place `index` among `fortunes`:
/// nothing where there are no fortunes, and else the fortune at that place,
/// which is one of theirs.
pub open spec fn is_choice_at(
    chosen: Option<&Fortune>,
    fortunes: Seq<Fortune>,
    index: nat,
) -> bool {
    if fortunes.len() == 0 {
        chosen is None
    } else {
        index < fortunes.len() && chosen == Some(&fortunes[index as int])
    }
}

/// `rand::seq::SliceRandom::choose` on `fortunes`, with a generator that
/// `rand::rngs::StdRng::seed_from_u64` made of `seed`. It chooses nothing
/// among no fortunes, and else the fortune at one place, which lies within the
/// slice and depends on nothing but the seed and the number of fortunes.
#[verifier::external_body]
fn choose_seeded<'a>(fortunes: &'a [Fortune], seed: u64) -> (chosen: Option<&'a Fortune>)
    ensures
        is_choice_at(chosen, fortunes@, seeded_index(seed, fortunes@.len())),
{
    let mut rng = rand::rngs::StdRng::seed_from_u64(seed);
    fortunes.choose(&mut rng)
}

/// `rand::seq::SliceRandom::choose` on `fortunes`, with the generator of the
/// running thread, `rand::thread_rng`. It chooses nothing among no fortunes,
/// and else one of them; which one is left to chance.
#[verifier::external_body]
fn choose_unseeded<'a>(fortunes: &'a [Fortune]) -> (chosen: Option<&'a Fortune>)
    ensures
        exists|index: nat| is_choice_at(chosen, fortunes@, index),
{
    let mut rng = rand::thread_rng();
    fortunes.choose(&mut rng)
}

/// A copy of the text of the fortune that was chosen, where one was.
pub fn chosen_text(chosen: Option<&Fortune>) -> (text: Option<String>)
    ensures
        option_view(text) == text_view(chosen),
{
    match chosen {
        Some(fortune) => Some(fortune.text.clone()),
        None => None,
    }
}

/// What a pick returns: nothing from no fortunes, and else the text of one of
/// them, which with a seed is the one at the place that the seed chooses.
pub open spec fn is_pick(records: Seq<Record>, seed: Option<u64>, text: Option<Seq<char>>) -> bool {
    &&& match text {
        None => records.len() == 0,
        Some(text) => exists|i: int| 0 <= i < records.len() && text == (#[trigger] records[i]).text,
    }
    &&& seed matches Some(seed) ==> text == picked_text(records, seed)
}

/// Picks one fortune and returns a copy of its text.
///
/// Among no fortunes there is nothing to pick, with or without a seed. With a
/// seed the fortune is the one at the place that the seed chooses for this
/// number of fortunes: the same seed on the same fortunes picks the same text
/// each time. Without a seed any of the fortunes may be picked.
pub fn pick_fortune(fortunes: &[Fortune], seed: Option<u64>) -> (text: Option<String>)
    ensures
        is_pick(record_views(fortunes@), seed, option_view(text)),
{
    let ghost records = record_views(fortunes@);
    match seed {
        Some(s) => {
            let chosen = choose_seeded(fortunes, s);
            proof {
                if fortunes@.len() > 0 {
                    let i = seeded_index(s, fortunes@.len()) as int;
                    assert(records[i] == fortunes@[i]@);
                }
            }
            chosen_text(chosen)
        },
        None => {
            let chosen = choose_unseeded(fortunes);
            proof {
                let index = choose|index: nat| is_choice_at(chosen, fortunes@, index);
                if fortunes@.len() > 0 {
                    assert(records[index as int] == fortunes@[index as int]@);
                }
            }
            chosen_text(chosen)
        },
    }
}

/// Two picks with one seed from one store return the same text, and from a
/// store that is not empty each of them returns a text.
pub proof fn lemma_pick_repeats(
    records: Seq<Record>,
    seed: u64,
    first: Option<Seq<char>>,
    second: Option<Seq<char>>,
)
    requires
        records.len() > 0,
        is_pick(records, Some(seed), first),
        is_pick(records, Some(seed), second),
    ensures
        first is Some,
        first == second,
{
}

/// From an empty store nothing is picked, with any seed and with none.
pub proof fn lemma_pick_from_nothing(
    records: Seq<Record>,
    seed: Option<u64>,
    text: Option<Seq<char>>,
)
    requires
        records.len() == 0,
        is_pick(records, seed, text),
    ensures
        text is None,
{
}

} // verus!
