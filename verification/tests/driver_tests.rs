use game_of_life::driver::Driver;

#[test]
fn fresh_driver_counters() {
    let d = Driver::new();
    assert_eq!(d.runs, 1);
    assert_eq!(d.generation, 0);
    assert_eq!(d.prev_population, 0);
    assert_eq!(d.dead_generations, 0);
}

#[test]
fn changing_population_only_advances_the_generation() {
    let mut d = Driver::new();
    assert_eq!(d.tick(3, 100, 10), 0);
    assert_eq!(d.generation, 1);
    assert_eq!(d.dead_generations, 0);
    assert_eq!(d.prev_population, 3);
    assert_eq!(d.tick(5, 100, 10), 0);
    assert_eq!(d.generation, 2);
    assert_eq!(d.dead_generations, 0);
    assert_eq!(d.runs, 1);
}

#[test]
fn stagnation_reset_fires_one_tick_after_the_threshold() {
    let mut d = Driver::new();
    // An empty board is stagnant; the counter is incremented only after the
    // comparison, so with a threshold of 1 the reset fires on the third tick.
    assert_eq!(d.tick(0, 100, 1), 0);
    assert_eq!(d.dead_generations, 1);
    assert_eq!(d.tick(0, 100, 1), 0);
    assert_eq!(d.dead_generations, 2);
    assert_eq!(d.tick(0, 100, 1), 1);
    assert_eq!(d.runs, 2);
    assert_eq!(d.generation, 0);
    assert_eq!(d.dead_generations, 1);
}

#[test]
fn unchanged_population_counts_as_stagnant() {
    let mut d = Driver::new();
    assert_eq!(d.tick(7, 100, 0), 0);
    assert_eq!(d.dead_generations, 0);
    assert_eq!(d.tick(7, 100, 0), 0);
    assert_eq!(d.dead_generations, 1);
    assert_eq!(d.tick(7, 100, 0), 1);
    assert_eq!(d.runs, 2);
}

#[test]
fn generation_reset_fires_at_the_threshold() {
    let mut d = Driver::new();
    assert_eq!(d.tick(1, 3, 100), 0);
    assert_eq!(d.tick(2, 3, 100), 0);
    assert_eq!(d.tick(3, 3, 100), 1);
    assert_eq!(d.runs, 2);
    assert_eq!(d.generation, 0);
    assert_eq!(d.dead_generations, 0);
    assert_eq!(d.prev_population, 3);
}

#[test]
fn both_triggers_can_fire_on_one_tick() {
    let mut d = Driver::new();
    // With both thresholds at zero, a stagnant tick first fires the
    // stagnation reset, and the zeroed generation counter then equals the
    // generation threshold as well: the board is reseeded twice.
    assert_eq!(d.tick(0, 0, 0), 0);
    assert_eq!(d.tick(0, 0, 0), 2);
    assert_eq!(d.runs, 3);
    assert_eq!(d.generation, 0);
    assert_eq!(d.dead_generations, 0);
}
