use vstd::prelude::*;
use crate::game::Spot;
use crate::matrix::lemma_index_in_range;

verus! {

/// Fitness won by the winner of one game, and lost by the loser.
pub const WIN_AMOUNT: i32 = 1;

/// The fitness changes `(first player, second player)` that one game with
/// the given winner brings: a win is worth `WIN_AMOUNT` to the winner and
/// costs as much to the loser; a draw (`EMPTY`) changes nothing.
pub open spec fn score_of(winner: Spot) -> (int, int) {
    match winner {
        Spot::RED => (1, -1),
        Spot::YELLOW => (-1, 1),
        Spot::EMPTY => (0, 0),
    }
}

/// The fitness changes `(a, b)` of a pairing of two games: `first` won the
/// game where `a` played first (RED), `second` the one where `b` did.
pub open spec fn pair_score(first: Spot, second: Spot) -> (int, int) {
    (score_of(first).0 + score_of(second).1, score_of(first).1 + score_of(second).0)
}

/// The fitness changes of one game, as `score_of` gives them.
pub fn game_score(winner: Spot) -> (r: (i32, i32))
    ensures
        (r.0 as int, r.1 as int) == score_of(winner),
{
    match winner {
        Spot::RED => (WIN_AMOUNT, -WIN_AMOUNT),
        Spot::YELLOW => (-WIN_AMOUNT, WIN_AMOUNT),
        Spot::EMPTY => (0, 0),
    }
}

/// The fitness changes of a pairing, as `pair_score` gives them.
pub fn get_fitness(first: Spot, second: Spot) -> (r: (i32, i32))
    ensures
        (r.0 as int, r.1 as int) == pair_score(first, second),
{
    let (x, y) = game_score(first);
    let (theirs, mine) = game_score(second);
    (x + mine, y + theirs)
}

/// What agent `a` gets from its pairings with agent `j`, in a tournament
/// of `n` agents whose results are `results` (see `tournament_deltas`).
pub open spec fn contribution(results: Seq<(Spot, Spot)>, n: int, a: int, j: int) -> int {
    if j == a {
        0
    } else {
        pair_score(results[a * n + j].0, results[a * n + j].1).0 + pair_score(
            results[j * n + a].0,
            results[j * n + a].1,
        ).1
    }
}

/// What agent `a` gets from its pairings with the agents `0..k`.
pub open spec fn fitness_delta(results: Seq<(Spot, Spot)>, n: int, a: int, k: int) -> int
    decreases k,
{
    if k <= 0 {
        0
    } else {
        fitness_delta(results, n, a, k - 1) + contribution(results, n, a, k - 1)
    }
}

proof fn lemma_contribution_bound(results: Seq<(Spot, Spot)>, n: int, a: int, j: int)
    ensures
        -4 <= contribution(results, n, a, j) <= 4,
{
}

/// The fitness of each of `n` agents after a round robin.
///
/// For each ordered pair `(i, j)` of distinct agents, `results[i * n + j]`
/// holds the winners of its two games: the one where `i` played first, then
/// the one where `j` did. Agent `a` collects its share of every pairing
/// where it stands first and of every one where it stands second.
pub fn tournament_deltas(n: usize, results: &Vec<(Spot, Spot)>) -> (r: Vec<i64>)
    requires
        results@.len() == n * n,
    ensures
        r@.len() == n,
        forall|a: int| 0 <= a < n ==> #[trigger] r@[a] as int == fitness_delta(results@, n as int, a, n as int),
{
    let mut r: Vec<i64> = Vec::with_capacity(n);
    let mut a: usize = 0;
    let len = results.len();
    proof {
        assert(n <= 0x1_0000_0000) by (nonlinear_arith)
            requires
                n * n <= usize::MAX,
        ;
    }
    while a < n
        invariant
            results@.len() == n * n,
            len == results@.len(),
            n <= 0x1_0000_0000,
            a <= n,
            r@.len() == a,
            forall|b: int| 0 <= b < a ==> #[trigger] r@[b] as int == fitness_delta(results@, n as int, b, n as int),
        decreases n - a,
    {
        let mut total: i64 = 0;
        let mut j: usize = 0;
        while j < n
            invariant
                results@.len() == n * n,
                len == results@.len(),
                n <= 0x1_0000_0000,
                a < n,
                j <= n,
                total as int == fitness_delta(results@, n as int, a as int, j as int),
                -4 * j <= total <= 4 * j,
            decreases n - j,
        {
            if j != a {
                proof {
                    lemma_index_in_range(a as int, j as int, n as int, n as int);
                    lemma_index_in_range(j as int, a as int, n as int, n as int);
                    lemma_contribution_bound(results@, n as int, a as int, j as int);
                }
                let (first, second) = results[a * n + j];
                let (mine, _) = get_fitness(first, second);
                let (first, second) = results[j * n + a];
                let (_, theirs) = get_fitness(first, second);
                total = total + mine as i64 + theirs as i64;
            }
            j = j + 1;
        }
        r.push(total);
        a = a + 1;
    }
    r
}

/// Whether agent `a` ranks before agent `b`: a higher fitness first, and
/// the lower place first among equal fitness.
pub open spec fn ranks_before(fitness: Seq<i64>, a: int, b: int) -> bool {
    fitness[a] > fitness[b] || (fitness[a] == fitness[b] && a < b)
}

/// The `count` fittest agents, best first.
///
/// The result holds `count` distinct places of `fitness`, each ranking
/// (see `ranks_before`) before the next, and before every place left out.
pub fn select_survivors(fitness: &Vec<i64>, count: usize) -> (r: Vec<usize>)
    requires
        count <= fitness@.len(),
    ensures
        r@.len() == count,
        forall|p: int| 0 <= p < count ==> #[trigger] r@[p] < fitness@.len(),
        forall|p: int, q: int| 0 <= p < q < count ==> ranks_before(fitness@, #[trigger] r@[p] as int, #[trigger] r@[q] as int),
        forall|p: int, u: int|
            0 <= p < count && 0 <= u < fitness@.len() && !r@.contains(u as usize) ==> #[trigger] ranks_before(
                fitness@,
                r@[p] as int,
                u,
            ),
{
    let n = fitness.len();
    let mut taken: Vec<bool> = Vec::with_capacity(n);
    let mut k: usize = 0;
    while k < n
        invariant
            n == fitness@.len(),
            k <= n,
            taken@.len() == k,
            forall|i: int| 0 <= i < k ==> !#[trigger] taken@[i],
        decreases n - k,
    {
        taken.push(false);
        k = k + 1;
    }
    let mut r: Vec<usize> = Vec::with_capacity(count);
    proof {
        lemma_count_true_none(taken@, n as int);
    }
    while r.len() < count
        invariant
            n == fitness@.len(),
            count <= n,
            r@.len() <= count,
            taken@.len() == n,
            count_true(taken@, n as int) == r@.len(),
            forall|p: int| 0 <= p < r@.len() ==> #[trigger] r@[p] < n,
            forall|i: int| 0 <= i < n ==> (#[trigger] taken@[i] <==> r@.contains(i as usize)),
            forall|p: int, q: int| 0 <= p < q < r@.len() ==> ranks_before(fitness@, #[trigger] r@[p] as int, #[trigger] r@[q] as int),
            forall|p: int, u: int|
                0 <= p < r@.len() && 0 <= u < n && !taken@[u] ==> #[trigger] ranks_before(fitness@, r@[p] as int, u),
        decreases count - r@.len(),
    {
        proof {
            if forall|u: int| 0 <= u < n ==> #[trigger] taken@[u] {
                lemma_count_true_all(taken@, n as int);
            }
        }
        let mut best: usize = n;
        let mut i: usize = 0;
        while i < n
            invariant
                n == fitness@.len(),
                taken@.len() == n,
                i <= n,
                best == n || (best < i && !taken@[best as int]),
                best == n ==> forall|u: int| 0 <= u < i ==> taken@[u],
                best < n ==> forall|u: int| 0 <= u < i && !taken@[u] && u != best ==> ranks_before(fitness@, best as int, u),
            decreases n - i,
        {
            if !taken[i] {
                if best == n || fitness[i] > fitness[best] {
                    best = i;
                }
            }
            i = i + 1;
        }
        let ghost prev = r@;
        proof {
            lemma_count_true_set(taken@, n as int, best as int);
        }
        taken.set(best, true);
        r.push(best);
        proof {
            assert forall|j: int| 0 <= j < n implies (#[trigger] taken@[j] <==> r@.contains(j as usize)) by {
                if j == best {
                    assert(r@[prev.len() as int] == best);
                } else {
                    if prev.contains(j as usize) {
                        let p = choose|p: int| 0 <= p < prev.len() && prev[p] == j as usize;
                        assert(r@[p] == j as usize);
                    }
                    if r@.contains(j as usize) {
                        let p = choose|p: int| 0 <= p < r@.len() && r@[p] == j as usize;
                        assert(p < prev.len());
                        assert(prev[p] == j as usize);
                    }
                }
            }
            assert forall|p: int, q: int| 0 <= p < q < r@.len() implies ranks_before(fitness@, #[trigger] r@[p] as int, #[trigger] r@[q] as int) by {
                if q == prev.len() {
                    assert(r@[p] == prev[p]);
                }
            }
        }
    }
    r
}

/// Number of `true` entries among the first `k` of `s`.
pub open spec fn count_true(s: Seq<bool>, k: int) -> int
    decreases k,
{
    if k <= 0 {
        0
    } else {
        count_true(s, k - 1) + if s[k - 1] {
            1int
        } else {
            0
        }
    }
}

/// Setting a `false` entry below `k` to `true` adds one to the count.
proof fn lemma_count_true_set(s: Seq<bool>, k: int, i: int)
    requires
        0 <= i < s.len(),
        0 <= k <= s.len(),
        !s[i],
    ensures
        count_true(s.update(i, true), k) == count_true(s, k) + if i < k {
            1int
        } else {
            0
        },
    decreases k,
{
    if k > 0 {
        lemma_count_true_set(s, k - 1, i);
    }
}

/// When all of the first `k` entries are `true`, the count is `k`.
proof fn lemma_count_true_all(s: Seq<bool>, k: int)
    requires
        0 <= k <= s.len(),
        forall|i: int| 0 <= i < k ==> #[trigger] s[i],
    ensures
        count_true(s, k) == k,
    decreases k,
{
    if k > 0 {
        lemma_count_true_all(s, k - 1);
    }
}

/// No entry is `true`: the count is zero.
proof fn lemma_count_true_none(s: Seq<bool>, k: int)
    requires
        0 <= k <= s.len(),
        forall|i: int| 0 <= i < k ==> !#[trigger] s[i],
    ensures
        count_true(s, k) == 0,
    decreases k,
{
    if k > 0 {
        lemma_count_true_none(s, k - 1);
    }
}

/// Where one agent of the next generation comes from. The places are those
/// of the population being replaced. Every new agent starts with fitness 0.
#[derive(Clone, Copy, PartialEq, Eq, Debug, Structural)]
pub enum Offspring {
    /// A survivor, carried over unchanged.
    Keep(usize),
    /// A copy of the first agent, crossed over with the second, then mutated.
    Cross(usize, usize),
    /// A copy of a survivor, then mutated.
    Replicate(usize),
}

/// The smallest of three numbers.
pub open spec fn min3(a: int, b: int, c: int) -> int {
    if a <= b && a <= c {
        a
    } else if b <= c {
        b
    } else {
        c
    }
}

/// How many agents of a population of `population` come from crossover,
/// with `survivors` survivors and at most `crossover_size` crossed agents:
/// no more than there are ordered pairs of distinct survivors, nor than
/// there are places left after the survivors.
pub open spec fn crossover_count(survivors: int, crossover_size: int, population: int) -> int {
    min3(crossover_size, survivors * (survivors - 1), population - survivors)
}

/// The `t`-th ordered pair `(a, b)` of distinct survivors among
/// `survivors`, ordered by `a`, then by `b`.
pub open spec fn pair_at(survivors: int, t: int) -> (int, int) {
    let a = t / (survivors - 1);
    let k = t % (survivors - 1);
    (a, if k >= a {
        k + 1
    } else {
        k
    })
}

/// Whether `plan` is the next generation bred from `survivors`, the places
/// of the survivors, best first: the survivors themselves, in order; then
/// crosses of distinct survivors, pair after pair; then copies of the
/// survivors, cycling through them until there are `population` agents.
pub open spec fn is_generation_plan(
    plan: Seq<Offspring>,
    survivors: Seq<usize>,
    crossover_size: int,
    population: int,
) -> bool {
    let s = survivors.len() as int;
    let c = crossover_count(s, crossover_size, population);
    &&& plan.len() == population
    &&& s <= population
    &&& forall|j: int| 0 <= j < s ==> #[trigger] plan[j] == Offspring::Keep(survivors[j])
    &&& forall|t: int|
        0 <= t < c ==> #[trigger] plan[s + t] == Offspring::Cross(
            survivors[pair_at(s, t).0],
            survivors[pair_at(s, t).1],
        )
    &&& forall|j: int| s + c <= j < population ==> #[trigger] plan[j] == Offspring::Replicate(survivors[(j - s - c) % s])
}

/// The `t`-th pair is a pair of distinct survivors.
pub proof fn lemma_pair_at(s: int, t: int)
    requires
        s >= 1,
        0 <= t < s * (s - 1),
    ensures
        0 <= pair_at(s, t).0 < s,
        0 <= pair_at(s, t).1 < s,
        pair_at(s, t).0 != pair_at(s, t).1,
{
    assert(s >= 2) by (nonlinear_arith)
        requires
            s >= 1,
            0 <= t < s * (s - 1),
    ;
    let d = s - 1;
    let a = t / d;
    let k = t % d;
    assert(t == d * a + k && 0 <= k < d) by (nonlinear_arith)
        requires
            d > 0,
            a == t / d,
            k == t % d,
    ;
    assert(0 <= a < s) by (nonlinear_arith)
        requires
            t == d * a + k,
            0 <= k < d,
            0 <= t < s * d,
            d == s - 1,
    ;
}

/// The next generation bred from `survivors` (places in the old population,
/// best first), as `is_generation_plan` describes.
pub fn plan_offspring(survivors: &Vec<usize>, crossover_size: usize, population_size: usize) -> (r: Vec<Offspring>)
    requires
        1 <= survivors@.len() <= population_size,
    ensures
        is_generation_plan(r@, survivors@, crossover_size as int, population_size as int),
{
    let s = survivors.len();
    let room = population_size - s;
    assert((s as u128) * ((s - 1) as u128) <= u128::MAX) by (nonlinear_arith)
        requires
            1 <= s <= 0xffff_ffff_ffff_ffff,
    ;
    let pairs: u128 = (s as u128) * ((s - 1) as u128);
    let mut c: usize = if crossover_size < room { crossover_size } else { room };
    if pairs < c as u128 {
        c = pairs as usize;
    }
    assert(c == crossover_count(s as int, crossover_size as int, population_size as int));
    let mut r: Vec<Offspring> = Vec::with_capacity(population_size);
    let mut j: usize = 0;
    while j < s
        invariant
            s == survivors@.len(),
            j <= s,
            r@.len() == j,
            forall|m: int| 0 <= m < j ==> #[trigger] r@[m] == Offspring::Keep(survivors@[m]),
        decreases s - j,
    {
        r.push(Offspring::Keep(survivors[j]));
        j = j + 1;
    }
    let mut t: usize = 0;
    while t < c
        invariant
            s == survivors@.len(),
            s >= 1,
            c == crossover_count(s as int, crossover_size as int, population_size as int),
            t <= c,
            r@.len() == s + t,
            forall|m: int| 0 <= m < s ==> #[trigger] r@[m] == Offspring::Keep(survivors@[m]),
            forall|u: int|
                0 <= u < t ==> #[trigger] r@[s + u] == Offspring::Cross(
                    survivors@[pair_at(s as int, u).0],
                    survivors@[pair_at(s as int, u).1],
                ),
        decreases c - t,
    {
        proof {
            lemma_pair_at(s as int, t as int);
        }
        let a = t / (s - 1);
        let k = t % (s - 1);
        let b = if k >= a { k + 1 } else { k };
        r.push(Offspring::Cross(survivors[a], survivors[b]));
        t = t + 1;
    }
    let rest = population_size - s - c;
    let mut u: usize = 0;
    while u < rest
        invariant
            s == survivors@.len(),
            s >= 1,
            rest == population_size - s - c,
            c == crossover_count(s as int, crossover_size as int, population_size as int),
            u <= rest,
            r@.len() == s + c + u,
            forall|m: int| 0 <= m < s ==> #[trigger] r@[m] == Offspring::Keep(survivors@[m]),
            forall|v: int|
                0 <= v < c ==> #[trigger] r@[s + v] == Offspring::Cross(
                    survivors@[pair_at(s as int, v).0],
                    survivors@[pair_at(s as int, v).1],
                ),
            forall|m: int| s + c <= m < s + c + u ==> #[trigger] r@[m] == Offspring::Replicate(survivors@[(m - s - c) % (s as int)]),
        decreases rest - u,
    {
        r.push(Offspring::Replicate(survivors[u % s]));
        u = u + 1;
    }
    r
}
/// The integer part of a training run's configuration.
#[derive(Clone, Copy, PartialEq, Eq, Debug, Structural)]
pub struct PoolSettings {
    /// Agents kept from one generation to the next.
    pub surviving_amount: usize,
    /// At most this many agents of a generation come from crossover.
    pub crossover_size: usize,
    /// Agents in each generation.
    pub population_size: usize,
    /// Generations to run; a negative number runs without end.
    pub generations: isize,
    /// Save the survivors every this many generations; zero or negative: never.
    pub save_interval: isize,
    /// Compare the best agent with a fixed player every this many
    /// generations; zero or negative: never.
    pub compare_interval: isize,
}

/// Why a pool configuration is refused.
#[derive(Clone, Copy, PartialEq, Eq, Debug, Structural)]
pub enum SettingsError {
    /// No agent would survive a generation.
    NoSurvivors,
    /// More survivors than agents in a generation.
    TooManySurvivors,
}

/// Whether the settings let a generation be bred: at least one survivor,
/// and no more survivors than agents.
pub open spec fn settings_ok(p: PoolSettings) -> bool {
    1 <= p.surviving_amount <= p.population_size
}

impl PoolSettings {
    /// Checks that the settings let a generation be bred.
    pub fn check(&self) -> (r: Result<(), SettingsError>)
        ensures
            r is Ok <==> settings_ok(*self),
            r == Err::<(), SettingsError>(SettingsError::NoSurvivors) <==> self.surviving_amount == 0,
            r == Err::<(), SettingsError>(SettingsError::TooManySurvivors) <==> self.surviving_amount != 0
                && self.surviving_amount > self.population_size,
    {
        if self.surviving_amount == 0 {
            Err(SettingsError::NoSurvivors)
        } else if self.surviving_amount > self.population_size {
            Err(SettingsError::TooManySurvivors)
        } else {
            Ok(())
        }
    }
}

/// Whether the periodic task with period `interval` runs at `generation`:
/// never at generation 0, never for an interval of zero or below.
pub open spec fn due(generation: int, interval: int) -> bool {
    interval > 0 && generation != 0 && generation % interval == 0
}

/// Whether a run of `generations` generations (negative: without end)
/// still runs generation `generation`.
pub open spec fn runs(generation: int, generations: int) -> bool {
    generations < 0 || generation < generations
}

/// Whether a periodic task runs at `generation`, as `due` says.
pub fn is_due(generation: usize, interval: isize) -> (r: bool)
    ensures
        r == due(generation as int, interval as int),
{
    interval > 0 && generation != 0 && generation % (interval as usize) == 0
}

/// Whether generation `generation` is part of the run, as `runs` says.
pub fn continues(generation: usize, generations: isize) -> (r: bool)
    ensures
        r == runs(generation as int, generations as int),
{
    generations < 0 || generation < generations as usize
}

/// What the end of a generation decides: which agents survive, best first,
/// where each agent of the next generation comes from, and whether the
/// survivors are saved and compared with a fixed player.
pub struct GenerationStep {
    pub survivors: Vec<usize>,
    pub offspring: Vec<Offspring>,
    pub save: bool,
    pub compare: bool,
}

/// Closes generation `generation`, whose agents scored `fitness`: selects
/// the `surviving_amount` fittest (see `select_survivors`), breeds the next
/// generation from them (see `is_generation_plan`), and tells whether this
/// generation is saved and compared.
pub fn generation_step(generation: usize, fitness: &Vec<i64>, settings: &PoolSettings) -> (r: GenerationStep)
    requires
        settings_ok(*settings),
        fitness@.len() >= settings.surviving_amount,
    ensures
        r.survivors@.len() == settings.surviving_amount,
        forall|p: int| 0 <= p < r.survivors@.len() ==> #[trigger] r.survivors@[p] < fitness@.len(),
        forall|p: int, q: int|
            0 <= p < q < r.survivors@.len() ==> ranks_before(
                fitness@,
                #[trigger] r.survivors@[p] as int,
                #[trigger] r.survivors@[q] as int,
            ),
        forall|p: int, u: int|
            0 <= p < r.survivors@.len() && 0 <= u < fitness@.len() && !r.survivors@.contains(u as usize)
                ==> #[trigger] ranks_before(fitness@, r.survivors@[p] as int, u),
        is_generation_plan(
            r.offspring@,
            r.survivors@,
            settings.crossover_size as int,
            settings.population_size as int,
        ),
        r.save == due(generation as int, settings.save_interval as int),
        r.compare == due(generation as int, settings.compare_interval as int),
{
    let survivors = select_survivors(fitness, settings.surviving_amount);
    let offspring = plan_offspring(&survivors, settings.crossover_size, settings.population_size);
    GenerationStep {
        survivors,
        offspring,
        save: is_due(generation, settings.save_interval),
        compare: is_due(generation, settings.compare_interval),
    }
}

/// The generation a run starts from: the one after which the newest
/// checkpoint was saved, or 0 without one.
pub fn start_generation(newest: Option<(usize, usize)>) -> (r: usize)
    ensures
        r == match newest {
            Some((_, g)) => g,
            None => 0,
        },
{
    match newest {
        Some((_, g)) => g,
        None => 0,
    }
}

/// The two games of a pairing cancel out: whatever their winners, one
/// agent gains what the other loses.
pub proof fn lemma_pairing_antisymmetric(first: Spot, second: Spot)
    ensures
        pair_score(first, second).0 == -pair_score(first, second).1,
{
}

/// Swapping the two agents of a pairing swaps their scores.
pub proof fn lemma_pairing_swap(first: Spot, second: Spot)
    ensures
        pair_score(second, first).0 == pair_score(first, second).1,
        pair_score(second, first).1 == pair_score(first, second).0,
{
}

/// Each survivor is carried over unchanged into the next generation.
pub proof fn lemma_survivors_kept(
    plan: Seq<Offspring>,
    survivors: Seq<usize>,
    crossover_size: int,
    population: int,
)
    requires
        is_generation_plan(plan, survivors, crossover_size, population),
    ensures
        forall|p: int| 0 <= p < survivors.len() ==> #[trigger] plan.contains(Offspring::Keep(survivors[p])),
{
    assert forall|p: int| 0 <= p < survivors.len() implies #[trigger] plan.contains(Offspring::Keep(survivors[p])) by {
        assert(plan[p] == Offspring::Keep(survivors[p]));
    }
}

/// Stopping after generation `g` and resuming there runs the same
/// generations as one uninterrupted run of `g + k`, and every bred
/// generation, fresh or resumed, has `population` agents.
pub proof fn lemma_resume(
    g: int,
    k: int,
    fresh: Seq<Offspring>,
    resumed: Seq<Offspring>,
    survivors_fresh: Seq<usize>,
    survivors_resumed: Seq<usize>,
    crossover_size: int,
    population: int,
)
    requires
        0 <= g,
        0 <= k,
        is_generation_plan(fresh, survivors_fresh, crossover_size, population),
        is_generation_plan(resumed, survivors_resumed, crossover_size, population),
    ensures
        forall|n: int|
            0 <= n ==> ((runs(n, g) || (g <= n && runs(n, g + k))) <==> #[trigger] runs(n, g + k)),
        fresh.len() == resumed.len(),
        resumed.len() == population,
{
}

/// What the agents `0..m` got from their pairings with the agents `0..k`.
pub open spec fn total_delta(results: Seq<(Spot, Spot)>, n: int, m: int, k: int) -> int
    decreases m,
{
    if m <= 0 {
        0
    } else {
        total_delta(results, n, m - 1, k) + fitness_delta(results, n, m - 1, k)
    }
}

/// What the agents `0..m` got from their pairings with agent `c`.
pub open spec fn given_to(results: Seq<(Spot, Spot)>, n: int, c: int, m: int) -> int
    decreases m,
{
    if m <= 0 {
        0
    } else {
        given_to(results, n, c, m - 1) + contribution(results, n, m - 1, c)
    }
}

proof fn lemma_total_extend(results: Seq<(Spot, Spot)>, n: int, m: int, k: int)
    requires
        0 <= k,
    ensures
        total_delta(results, n, m, k + 1) == total_delta(results, n, m, k) + given_to(results, n, k, m),
    decreases m,
{
    if m > 0 {
        lemma_total_extend(results, n, m - 1, k);
    }
}

proof fn lemma_given_to(results: Seq<(Spot, Spot)>, n: int, c: int, m: int)
    ensures
        given_to(results, n, c, m) == -fitness_delta(results, n, c, m),
    decreases m,
{
    if m > 0 {
        lemma_given_to(results, n, c, m - 1);
    }
}

/// A round robin hands out no fitness in total: whatever the results, the
/// gains of the winners are the losses of the losers.
pub proof fn lemma_tournament_zero_sum(results: Seq<(Spot, Spot)>, n: int)
    requires
        0 <= n,
    ensures
        total_delta(results, n, n, n) == 0,
{
    lemma_zero_sum_square(results, n, n);
}

/// The pairings among the first `m` agents sum to zero.
proof fn lemma_zero_sum_square(results: Seq<(Spot, Spot)>, n: int, m: int)
    requires
        0 <= m,
    ensures
        total_delta(results, n, m, m) == 0,
    decreases m,
{
    if m > 0 {
        lemma_zero_sum_square(results, n, m - 1);
        lemma_total_extend(results, n, m - 1, m - 1);
        lemma_given_to(results, n, m - 1, m - 1);
    }
}

} // verus!
