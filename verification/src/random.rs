//! Where the draws of the library come from: a seeded generator, or a list
//! of numbers for a caller who wants to name each draw.
use rand::rngs::StdRng;
use vstd::prelude::*;

verus! {

#[verifier::external_type_specification]
#[verifier::external_body]
pub struct ExStdRng(rand::rngs::StdRng);

/// `rand::Rng::gen_range(low, high)` on `usize`: some value of the half-open
/// range from `low` to `high`. The call panics on an empty range, which
/// `requires` leaves out.
#[verifier::external_body]
pub(crate) fn gen_range(rng: &mut StdRng, low: usize, high: usize) -> (value: usize)
    requires
        low < high,
    ensures
        low <= value < high,
{
    rand::Rng::gen_range(rng, low, high)
}

/// `rand::Rng::gen::<bool>()`: either truth value.
#[verifier::external_body]
pub(crate) fn gen_bool(rng: &mut StdRng) -> bool {
    rand::Rng::gen(rng)
}

/// `rand::SeedableRng::seed_from_u64` for `StdRng`: a generator.
#[verifier::external_body]
pub(crate) fn seed_from_u64(seed: u64) -> StdRng {
    rand::SeedableRng::seed_from_u64(seed)
}

/// The number at the place `k` of a list of draws; a list that has run out
/// goes on with zeros.
pub open spec fn draw_at(values: Seq<usize>, k: int) -> int {
    if 0 <= k < values.len() {
        values[k] as int
    } else {
        0
    }
}

/// The list `all` begins with the draws of `log`.
pub open spec fn extends(all: Seq<usize>, log: Seq<usize>) -> bool {
    forall|k: int| 0 <= k < log.len() ==> draw_at(all, k) == #[trigger] log[k]
}

/// A source of draws: a generator, or a list of numbers that are taken one
/// by one and followed by zeros. It remembers the numbers that it has
/// handed out.
pub struct Draws {
    generator: Option<StdRng>,
    values: Vec<usize>,
    taken: usize,
    log: Ghost<Seq<usize>>,
}

impl Draws {
    /// The numbers drawn so far, each as it was before it was brought below
    /// the bound of its draw.
    pub closed spec fn log(&self) -> Seq<usize> {
        self.log@
    }

    /// The list that the draws are taken from, where they come from a list.
    pub closed spec fn listed(&self) -> Option<Seq<usize>> {
        if self.generator is None {
            Some(self.values@)
        } else {
            None
        }
    }

    /// The draws of a list are those of the log.
    pub closed spec fn wf(&self) -> bool {
        self.generator is None ==> {
            &&& extends(self.values@, self.log@)
            &&& self.taken == if self.log@.len() < self.values@.len() {
                self.log@.len()
            } else {
                self.values@.len()
            }
        }
    }

    /// The list of a source that draws from a list begins with its log.
    pub proof fn lemma_listed_extends(&self)
        requires
            self.wf(),
            self.listed() is Some,
        ensures
            extends(self.listed().unwrap(), self.log()),
    {
    }

    /// Draws that come from the generator `rng`.
    pub fn from_generator(rng: StdRng) -> (draws: Draws)
        ensures
            draws.wf(),
            draws.log().len() == 0,
            draws.listed() is None,
    {
        Draws { generator: Some(rng), values: Vec::new(), taken: 0, log: Ghost(Seq::empty()) }
    }

    /// Draws that come from `values`, in their order.
    pub fn from_values(values: Vec<usize>) -> (draws: Draws)
        ensures
            draws.wf(),
            draws.log().len() == 0,
            draws.listed() == Some(values@),
    {
        Draws { generator: None, values, taken: 0, log: Ghost(Seq::empty()) }
    }

    /// Draws a number below `bound`. A generator gives each number below
    /// the bound the same chance. A list gives its next number, or zero
    /// once it has run out, reduced modulo the bound.
    pub fn below(&mut self, bound: usize) -> (value: usize)
        requires
            old(self).wf(),
            bound > 0,
        ensures
            final(self).wf(),
            final(self).listed() == old(self).listed(),
            final(self).log().len() == old(self).log().len() + 1,
            final(self).log().drop_last() == old(self).log(),
            value == final(self).log().last() % bound,
            value < bound,
    {
        let ghost before = self.log@;
        match &mut self.generator {
            Some(rng) => {
                let value = gen_range(rng, 0, bound);
                proof {
                    self.log = Ghost(before.push(value));
                    assert(self.log@.drop_last() =~= before);
                    vstd::arithmetic::div_mod::lemma_small_mod(value as nat, bound as nat);
                }
                value
            },
            None => {
                let raw = if self.taken < self.values.len() {
                    let raw = self.values[self.taken];
                    self.taken += 1;
                    raw
                } else {
                    0
                };
                proof {
                    self.log = Ghost(before.push(raw));
                    assert(self.log@.drop_last() =~= before);
                    assert(draw_at(self.values@, before.len() as int) == raw);
                }
                raw % bound
            },
        }
    }
}

} // verus!
