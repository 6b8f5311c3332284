use vstd::prelude::*;

verus! {

/// The reset policy of the simulation loop.
///
/// The driver owns the run, generation and stagnation counters. Once per tick
/// it is handed the population measured after the board advanced one
/// generation, updates the counters, and answers how many times the board must
/// be reseeded before the next tick.
pub struct Driver {
    /// How many seeded lifetimes have started, the current one included.
    pub runs: i32,
    /// Ticks since the start of the current run.
    pub generation: u32,
    /// The population measured on the previous tick.
    pub prev_population: i32,
    /// Ticks on which the population was zero or unchanged, counted since the
    /// last reset and incremented after the threshold comparison, so the
    /// stagnation trigger fires one tick later than the nominal threshold.
    pub dead_generations: u32,
}

/// A population reading counts as stagnant when the board is empty or the
/// population did not move since the previous tick.
pub open spec fn stagnant(population: int, prev_population: int) -> bool {
    population == 0 || population == prev_population
}

/// The stagnation trigger: the reading is stagnant and the count of stagnant
/// ticks has already passed the threshold.
pub open spec fn stagnation_reset(pre: Driver, population: int, max_dead_generations: int) -> bool {
    stagnant(population, pre.prev_population as int) && pre.dead_generations > max_dead_generations
}

/// The generation counter as it stands after the stagnation check of a tick:
/// advanced by one, or back at zero when the stagnation trigger fired.
pub open spec fn generation_after_stagnation(
    pre: Driver,
    population: int,
    max_dead_generations: int,
) -> int {
    if stagnation_reset(pre, population, max_dead_generations) {
        0
    } else {
        pre.generation + 1
    }
}

/// The generation-count trigger: the generation counter, as it stands after
/// the stagnation check, equals the configured threshold.
pub open spec fn generation_reset(
    pre: Driver,
    population: int,
    generations_till_reset: int,
    max_dead_generations: int,
) -> bool {
    generation_after_stagnation(pre, population, max_dead_generations) == generations_till_reset
}

impl Driver {
    /// A fresh driver: one run underway, no ticks elapsed.
    pub fn new() -> (d: Driver)
        ensures
            d.runs == 1,
            d.generation == 0,
            d.prev_population == 0,
            d.dead_generations == 0,
    {
        Driver { runs: 1, generation: 0, prev_population: 0, dead_generations: 0 }
    }

    /// Advance the counters by one tick, given the population measured after
    /// the board stepped one generation. Returns how many times the board must
    /// be reseeded: the stagnation trigger and the generation-count trigger
    /// are checked independently and can both fire on the same tick.
    pub fn tick(
        &mut self,
        population: i32,
        generations_till_reset: u32,
        max_dead_generations: u32,
    ) -> (reseeds: u32)
        requires
            old(self).generation < u32::MAX,
            old(self).dead_generations < u32::MAX,
            old(self).runs <= i32::MAX - 2,
        ensures
            ({
                let stag = stagnation_reset(*old(self), population as int, max_dead_generations as int);
                let gen_after = generation_after_stagnation(
                    *old(self),
                    population as int,
                    max_dead_generations as int,
                );
                let gen = generation_reset(
                    *old(self),
                    population as int,
                    generations_till_reset as int,
                    max_dead_generations as int,
                );
                &&& final(self).runs == old(self).runs + (if stag { 1int } else { 0 }) + (if gen { 1int } else { 0 })
                &&& final(self).generation == (if gen { 0int } else { gen_after })
                &&& final(self).dead_generations == (if gen {
                    0int
                } else if stag {
                    1int
                } else if stagnant(population as int, old(self).prev_population as int) {
                    old(self).dead_generations + 1
                } else {
                    old(self).dead_generations as int
                })
                &&& final(self).prev_population == population
                &&& reseeds == (if stag { 1int } else { 0 }) + (if gen { 1int } else { 0 })
            }),
    {
        self.generation = self.generation + 1;
        let mut reseeds: u32 = 0;
        if population == 0 || self.prev_population == population {
            if self.dead_generations > max_dead_generations {
                self.runs = self.runs + 1;
                self.generation = 0;
                self.dead_generations = 0;
                reseeds = reseeds + 1;
            }
            self.dead_generations = self.dead_generations + 1;
        }
        if self.generation == generations_till_reset {
            self.runs = self.runs + 1;
            self.generation = 0;
            self.dead_generations = 0;
            reseeds = reseeds + 1;
        }
        self.prev_population = population;
        reseeds
    }
}

} // verus!
