use vstd::prelude::*;

verus! {

/// What the search has done so far: iterations, depths, time and nodes, and the
/// iteration count and average depth when the current search started.
#[derive(Clone, Copy)]
pub struct SearchInfo {
    pub current_iterations: i32,
    pub previous_iterations: i32,
    pub total_depth: u32,
    pub start_avg_depth: u32,
    pub max_depth: u32,
    pub time_passed: u128,
    pub nodes: u32,
}

/// The average depth: the total depth over the iterations, counting at least one.
pub open spec fn avg_depth(info: SearchInfo) -> int {
    info.total_depth as int / if info.current_iterations >= 1 {
        info.current_iterations as int
    } else {
        1
    }
}

impl SearchInfo {
    pub fn new() -> (r: Self)
        ensures
            r.current_iterations == -1,
            r.previous_iterations == 0,
            r.total_depth == 0,
            r.start_avg_depth == 0,
            r.max_depth == 0,
            r.time_passed == 0,
            r.nodes == 0,
    {
        Self {
            current_iterations: -1,
            previous_iterations: 0,
            total_depth: 0,
            start_avg_depth: 0,
            max_depth: 0,
            time_passed: 0,
            nodes: 0,
        }
    }

    pub fn get_avg_depth(&self) -> (r: u32)
        ensures
            r == avg_depth(*self),
    {
        let iterations: i32 = if self.current_iterations > 1 { self.current_iterations } else { 1 };
        self.total_depth / iterations as u32
    }
}

/// The limits of a search: time for the move in milliseconds, depth and nodes (0 for no
/// limit), or no limit at all.
#[derive(Clone, Copy)]
pub struct SearchRules {
    pub time_for_move: u64,
    pub max_depth: u32,
    pub max_nodes: u32,
    pub infinite: bool,
}

/// Whether a search under `rules` goes on after `info`.
pub open spec fn search_goes_on(rules: SearchRules, info: SearchInfo) -> bool {
    if rules.infinite {
        true
    } else if rules.max_nodes > 0 && info.current_iterations - info.previous_iterations >= rules.max_nodes as i32 {
        false
    } else if rules.max_depth > 0 && avg_depth(info) - info.start_avg_depth >= rules.max_depth {
        false
    } else if rules.time_for_move > 0 && info.time_passed >= rules.time_for_move {
        false
    } else {
        true
    }
}

/// The time given to a move: the remaining time over the moves to go (20 when unknown),
/// plus half the increment, minus the move overhead; at least 1 and at most the remaining
/// time.
pub open spec fn move_time(time_remaining: int, time_increment: int, moves_to_go: int, move_overhead: int) -> int {
    let divider = if moves_to_go > 0 {
        moves_to_go
    } else {
        20
    };
    let raw = time_remaining / divider + time_increment / 2 - move_overhead;
    let at_least_one = if raw >= 1 {
        raw
    } else {
        1
    };
    if at_least_one <= time_remaining {
        at_least_one
    } else {
        time_remaining
    }
}

/// The increment counts in full whatever the number of moves to go: half of it is
/// added to the time for the move just as a smaller overhead would be.
pub proof fn lemma_increment_counts_as_less_overhead(
    time_remaining: int,
    time_increment: int,
    moves_to_go: int,
    move_overhead: int,
)
    ensures
        move_time(time_remaining, time_increment, moves_to_go, move_overhead) == move_time(
            time_remaining,
            0,
            moves_to_go,
            move_overhead - time_increment / 2,
        ),
{
}

/// The time for a move, written out: the remaining time over the moves to go (20 when
/// none are given), plus half the increment, less the overhead; 1 when that is less
/// than 1, and the remaining time when it is more.
pub proof fn lemma_move_time_formula(time_remaining: int, time_increment: int, moves_to_go: int, move_overhead: int)
    requires
        time_remaining >= 1,
    ensures
        1 <= move_time(time_remaining, time_increment, moves_to_go, move_overhead) <= time_remaining,
        1 <= time_remaining / (if moves_to_go > 0 { moves_to_go } else { 20 }) + time_increment / 2 - move_overhead
            <= time_remaining ==> move_time(time_remaining, time_increment, moves_to_go, move_overhead)
            == time_remaining / (if moves_to_go > 0 { moves_to_go } else { 20 }) + time_increment / 2 - move_overhead,
        time_remaining / (if moves_to_go > 0 { moves_to_go } else { 20 }) + time_increment / 2 - move_overhead < 1
            ==> move_time(time_remaining, time_increment, moves_to_go, move_overhead) == 1,
        time_remaining / (if moves_to_go > 0 { moves_to_go } else { 20 }) + time_increment / 2 - move_overhead
            > time_remaining ==> move_time(time_remaining, time_increment, moves_to_go, move_overhead)
            == time_remaining,
{
}

impl SearchRules {
    pub fn new() -> (r: Self)
        ensures
            r.time_for_move == 0,
            r.max_depth == 0,
            r.max_nodes == 0,
            !r.infinite,
    {
        Self { time_for_move: 0, max_depth: 0, max_nodes: 0, infinite: false }
    }

    /// Whether the search goes on: always when infinite, else until the node, depth or
    /// time limit that is set is reached.
    pub fn continue_search(&self, search_info: &SearchInfo) -> (r: bool)
        requires
            !self.infinite && self.max_nodes > 0 ==> i32::MIN <= search_info.current_iterations
                - search_info.previous_iterations <= i32::MAX,
            !self.infinite && self.max_depth > 0 ==> avg_depth(*search_info) >= search_info.start_avg_depth,
        ensures
            r == search_goes_on(*self, *search_info),
    {
        if self.infinite {
            return true;
        }
        if self.max_nodes > 0 && (search_info.current_iterations - search_info.previous_iterations) >= self.max_nodes as i32 {
            return false;
        }
        if self.max_depth > 0 && (search_info.get_avg_depth() - search_info.start_avg_depth) >= self.max_depth {
            return false;
        }
        if self.time_for_move > 0 && search_info.time_passed >= self.time_for_move as u128 {
            return false;
        }
        true
    }

    /// The time for the next move, with `move_overhead` kept in reserve.
    pub fn calculate_time(time_remaining: u64, time_increment: u64, moves_to_go: u64, move_overhead: u64) -> (r: u64)
        requires
            time_remaining / (if moves_to_go > 0 { moves_to_go } else { 20 }) + time_increment / 2 >= move_overhead,
            time_remaining / (if moves_to_go > 0 { moves_to_go } else { 20 }) + time_increment / 2 <= u64::MAX,
        ensures
            r == move_time(time_remaining as int, time_increment as int, moves_to_go as int, move_overhead as int),
    {
        let divider: u64 = if moves_to_go > 0 { moves_to_go } else { 20 };
        let raw = time_remaining / divider + time_increment / 2 - move_overhead;
        let at_least_one: u64 = if raw >= 1 { raw } else { 1 };
        if at_least_one <= time_remaining { at_least_one } else { time_remaining }
    }
}

} // verus!
