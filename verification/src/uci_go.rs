use vstd::prelude::*;
use vstd::string::StringSliceAdditionalSpecFns;
use vstd::utf8::encode_utf8;

use crate::fen::{digits_value, is_digit, unsigned_digits};
use crate::options::{all_digits, lemma_digits_prefix_mono};
use crate::search_rules::{move_time, SearchRules};

verus! {

/// The words a `go` command knows, by number: `infinite`, `wtime`, `btime`, `winc`,
/// `binc`, `movestogo`, `depth`, `nodes`, `iterations`, `movetime`.
pub open spec fn go_word(k: int) -> Seq<u8> {
    if k == 0 {
        seq![105u8, 110u8, 102u8, 105u8, 110u8, 105u8, 116u8, 101u8]
    } else if k == 1 {
        seq![119u8, 116u8, 105u8, 109u8, 101u8]
    } else if k == 2 {
        seq![98u8, 116u8, 105u8, 109u8, 101u8]
    } else if k == 3 {
        seq![119u8, 105u8, 110u8, 99u8]
    } else if k == 4 {
        seq![98u8, 105u8, 110u8, 99u8]
    } else if k == 5 {
        seq![109u8, 111u8, 118u8, 101u8, 115u8, 116u8, 111u8, 103u8, 111u8]
    } else if k == 6 {
        seq![100u8, 101u8, 112u8, 116u8, 104u8]
    } else if k == 7 {
        seq![110u8, 111u8, 100u8, 101u8, 115u8]
    } else if k == 8 {
        seq![105u8, 116u8, 101u8, 114u8, 97u8, 116u8, 105u8, 111u8, 110u8, 115u8]
    } else {
        seq![109u8, 111u8, 118u8, 101u8, 116u8, 105u8, 109u8, 101u8]
    }
}

/// The number of the first word from `k` on that `t` is; 10 when it is none.
pub open spec fn go_key_from(t: Seq<u8>, k: int) -> int
    decreases 10 - k,
{
    if k >= 10 {
        10
    } else if t =~= go_word(k) {
        k
    } else {
        go_key_from(t, k + 1)
    }
}

/// What `u64::from_str` reads from `s`, 0 when it reads nothing.
pub open spec fn u64_or_zero(s: Seq<u8>) -> u64 {
    let d = unsigned_digits(s);
    if d.len() >= 1 && all_digits(d) && digits_value(d) <= u64::MAX {
        digits_value(d) as u64
    } else {
        0
    }
}

/// The limits read so far from a `go` command, and the clocks it gives.
#[derive(Clone, Copy)]
pub struct GoLimits {
    pub rules: SearchRules,
    pub wtime: u64,
    pub btime: u64,
    pub winc: u64,
    pub binc: u64,
    pub movestogo: u64,
}

/// The limits after the word number `key` with the value `value`; `None` when the depth
/// overflows.
pub open spec fn go_apply(st: GoLimits, key: int, value: u64, avg_depth: u32) -> Option<GoLimits> {
    if key == 1 {
        Some(GoLimits { wtime: value, ..st })
    } else if key == 2 {
        Some(GoLimits { btime: value, ..st })
    } else if key == 3 {
        Some(GoLimits { winc: value, ..st })
    } else if key == 4 {
        Some(GoLimits { binc: value, ..st })
    } else if key == 5 {
        Some(GoLimits { movestogo: value, ..st })
    } else if key == 6 {
        if value as u32 + avg_depth > u32::MAX {
            None
        } else {
            Some(GoLimits { rules: SearchRules { max_depth: (value as u32 + avg_depth) as u32, ..st.rules }, ..st })
        }
    } else if key == 7 {
        Some(GoLimits { rules: SearchRules { max_nodes: value as u32, ..st.rules }, ..st })
    } else if key == 9 {
        Some(GoLimits { rules: SearchRules { time_for_move: value, ..st.rules }, ..st })
    } else {
        Some(st)
    }
}

/// The limits after reading the words of a `go` command from position `i`: `infinite`
/// sets no limit, a known word followed by a value sets its limit (a value that is no
/// number counts as 0), any other word is skipped; `None` when a depth overflows.
pub open spec fn go_scan(tokens: Seq<Seq<u8>>, i: int, st: GoLimits, avg_depth: u32) -> Option<GoLimits>
    decreases tokens.len() - i,
{
    if i < 0 || i >= tokens.len() {
        Some(st)
    } else {
        let key = go_key_from(tokens[i], 0);
        if key == 0 {
            go_scan(tokens, i + 1, GoLimits { rules: SearchRules { infinite: true, ..st.rules }, ..st }, avg_depth)
        } else if 1 <= key <= 9 && i + 1 < tokens.len() {
            match go_apply(st, key, u64_or_zero(tokens[i + 1]), avg_depth) {
                Some(next) => go_scan(tokens, i + 2, next, avg_depth),
                None => None,
            }
        } else {
            go_scan(tokens, i + 1, st, avg_depth)
        }
    }
}

/// The limits before any word is read: none, and no limit at all when there is no word.
pub open spec fn go_start(tokens: Seq<Seq<u8>>) -> GoLimits {
    GoLimits {
        rules: SearchRules { time_for_move: 0, max_depth: 0, max_nodes: 0, infinite: tokens.len() == 0 },
        wtime: 0,
        btime: 0,
        winc: 0,
        binc: 0,
        movestogo: 0,
    }
}

/// The search limits of a `go` command for the side to move: those the words set, and,
/// when that side's clock is given, the time for the move computed from it with
/// `move_overhead` kept in reserve; no limit at all when the command has no word. `None`
/// where the depth or the time computation overflows.
pub open spec fn go_rules(tokens: Seq<Seq<u8>>, white_to_move: bool, avg_depth: u32, move_overhead: u64) -> Option<SearchRules> {
    match go_scan(tokens, 0, go_start(tokens), avg_depth) {
        None => None,
        Some(st) => {
            let time = if white_to_move { st.wtime } else { st.btime };
            let increment = if white_to_move { st.winc } else { st.binc };
            let divider = if st.movestogo > 0 { st.movestogo as int } else { 20 };
            let raw = time as int / divider + increment as int / 2;
            if time == 0 {
                Some(st.rules)
            } else if raw < move_overhead || raw > u64::MAX {
                None
            } else {
                Some(SearchRules {
                    time_for_move: move_time(time as int, increment as int, st.movestogo as int, move_overhead as int) as u64,
                    ..st.rules
                })
            }
        },
    }
}

/// `t` with the words of the two sides' clocks exchanged: `wtime` for `btime`, `winc`
/// for `binc`, and back.
pub open spec fn swap_clock_word(t: Seq<u8>) -> Seq<u8> {
    if t == go_word(1) {
        go_word(2)
    } else if t == go_word(2) {
        go_word(1)
    } else if t == go_word(3) {
        go_word(4)
    } else if t == go_word(4) {
        go_word(3)
    } else {
        t
    }
}

/// The words of a `go` command with the two sides' clock words exchanged.
pub open spec fn swap_clock_words(tokens: Seq<Seq<u8>>) -> Seq<Seq<u8>> {
    tokens.map_values(|t: Seq<u8>| swap_clock_word(t))
}

/// The number of a word once the clock words are exchanged.
spec fn swap_key(k: int) -> int {
    if k == 1 {
        2
    } else if k == 2 {
        1
    } else if k == 3 {
        4
    } else if k == 4 {
        3
    } else {
        k
    }
}

/// Limits with the two sides' clocks and increments exchanged.
spec fn swap_clocks(st: GoLimits) -> GoLimits {
    GoLimits { wtime: st.btime, btime: st.wtime, winc: st.binc, binc: st.winc, ..st }
}

spec fn swap_clocks_opt(o: Option<GoLimits>) -> Option<GoLimits> {
    match o {
        Some(st) => Some(swap_clocks(st)),
        None => None,
    }
}

/// The `go` words differ from one another.
proof fn lemma_go_words_differ()
    ensures
        forall|j: int, k: int| 0 <= j < 10 && 0 <= k < 10 && j != k ==> go_word(j) != go_word(k),
{
    assert forall|j: int, k: int| 0 <= j < 10 && 0 <= k < 10 && j != k implies go_word(j) != go_word(k) by {
        if go_word(j).len() == go_word(k).len() {
            assert(go_word(j)[0] != go_word(k)[0] || go_word(j)[1] != go_word(k)[1] || go_word(j)[2] != go_word(k)[2]);
        }
    }
}

/// The number found from `k` on is that of the first word from `k` on that `t` is.
proof fn lemma_go_key_from(t: Seq<u8>, k: int)
    requires
        0 <= k <= 10,
    ensures
        k <= go_key_from(t, k) <= 10,
        go_key_from(t, k) < 10 ==> t == go_word(go_key_from(t, k)),
        forall|j: int| k <= j < go_key_from(t, k) ==> t != go_word(j),
    decreases 10 - k,
{
    if k < 10 && !(t =~= go_word(k)) {
        lemma_go_key_from(t, k + 1);
    }
}

/// The number of a word is the one of its `go` word, or 10.
proof fn lemma_go_key(t: Seq<u8>)
    ensures
        0 <= go_key_from(t, 0) <= 10,
        forall|k: int| 0 <= k < 10 && t == go_word(k) ==> go_key_from(t, 0) == k,
        go_key_from(t, 0) < 10 ==> t == go_word(go_key_from(t, 0)),
{
    lemma_go_key_from(t, 0);
    lemma_go_words_differ();
}

/// Exchanging the clock words exchanges their numbers and keeps what they read as a
/// value (none of them is a number).
proof fn lemma_swap_clock_word(t: Seq<u8>)
    ensures
        go_key_from(swap_clock_word(t), 0) == swap_key(go_key_from(t, 0)),
        u64_or_zero(swap_clock_word(t)) == u64_or_zero(t),
{
    lemma_go_key(t);
    lemma_go_key(swap_clock_word(t));
    lemma_go_words_differ();
    if t == go_word(1) || t == go_word(2) || t == go_word(3) || t == go_word(4) {
        let u = swap_clock_word(t);
        assert(!is_digit(t[0]) && t[0] != 43);
        assert(!is_digit(u[0]) && u[0] != 43);
        assert(unsigned_digits(t) == t);
        assert(unsigned_digits(u) == u);
        assert(!all_digits(t));
        assert(!all_digits(u));
    }
}

/// Scanning the words with the clock words exchanged, from limits with the clocks
/// exchanged, gives the limits with the clocks exchanged.
proof fn lemma_go_scan_swapped(tokens: Seq<Seq<u8>>, i: int, st: GoLimits, avg_depth: u32)
    requires
        0 <= i,
    ensures
        go_scan(swap_clock_words(tokens), i, swap_clocks(st), avg_depth) == swap_clocks_opt(
            go_scan(tokens, i, st, avg_depth),
        ),
    decreases tokens.len() - i,
{
    let sw = swap_clock_words(tokens);
    assert(sw.len() == tokens.len());
    if i < tokens.len() {
        assert(sw[i] == swap_clock_word(tokens[i]));
        lemma_swap_clock_word(tokens[i]);
        let key = go_key_from(tokens[i], 0);
        lemma_go_key(tokens[i]);
        if key == 0 {
            assert(swap_clocks(GoLimits { rules: SearchRules { infinite: true, ..st.rules }, ..st }) == GoLimits {
                rules: SearchRules { infinite: true, ..swap_clocks(st).rules },
                ..swap_clocks(st)
            });
            lemma_go_scan_swapped(tokens, i + 1, GoLimits { rules: SearchRules { infinite: true, ..st.rules }, ..st }, avg_depth);
        } else if 1 <= key <= 9 && i + 1 < tokens.len() {
            assert(sw[i + 1] == swap_clock_word(tokens[i + 1]));
            lemma_swap_clock_word(tokens[i + 1]);
            let v = u64_or_zero(tokens[i + 1]);
            assert(go_apply(swap_clocks(st), swap_key(key), v, avg_depth) == swap_clocks_opt(go_apply(st, key, v, avg_depth)));
            match go_apply(st, key, v, avg_depth) {
                Some(next) => {
                    lemma_go_scan_swapped(tokens, i + 2, next, avg_depth);
                },
                None => {},
            }
        } else {
            lemma_go_scan_swapped(tokens, i + 1, st, avg_depth);
        }
    }
}

/// The side to move changes what a `go` command sets only through the clock and the
/// increment that are read: the limits for one side are those the other side gets from
/// the same command with the two sides' clock words exchanged (the same moves to go,
/// depth, nodes and move time).
pub proof fn lemma_go_rules_side_symmetric(tokens: Seq<Seq<u8>>, white_to_move: bool, avg_depth: u32, move_overhead: u64)
    ensures
        go_rules(swap_clock_words(tokens), !white_to_move, avg_depth, move_overhead) == go_rules(
            tokens,
            white_to_move,
            avg_depth,
            move_overhead,
        ),
{
    let sw = swap_clock_words(tokens);
    assert(sw.len() == tokens.len());
    assert(go_start(sw) == go_start(tokens));
    assert(swap_clocks(go_start(tokens)) == go_start(tokens));
    lemma_go_scan_swapped(tokens, 0, go_start(tokens), avg_depth);
}

/// The bytes of the `go` word number `k`.
fn go_word_bytes(k: usize) -> (r: Vec<u8>)
    requires
        k < 10,
    ensures
        r@ == go_word(k as int),
{
    let r = if k == 0 {
        vec![105u8, 110u8, 102u8, 105u8, 110u8, 105u8, 116u8, 101u8]
    } else if k == 1 {
        vec![119u8, 116u8, 105u8, 109u8, 101u8]
    } else if k == 2 {
        vec![98u8, 116u8, 105u8, 109u8, 101u8]
    } else if k == 3 {
        vec![119u8, 105u8, 110u8, 99u8]
    } else if k == 4 {
        vec![98u8, 105u8, 110u8, 99u8]
    } else if k == 5 {
        vec![109u8, 111u8, 118u8, 101u8, 115u8, 116u8, 111u8, 103u8, 111u8]
    } else if k == 6 {
        vec![100u8, 101u8, 112u8, 116u8, 104u8]
    } else if k == 7 {
        vec![110u8, 111u8, 100u8, 101u8, 115u8]
    } else if k == 8 {
        vec![105u8, 116u8, 101u8, 114u8, 97u8, 116u8, 105u8, 111u8, 110u8, 115u8]
    } else {
        vec![109u8, 111u8, 118u8, 101u8, 116u8, 105u8, 109u8, 101u8]
    };
    proof {
        assert(r@ =~= go_word(k as int));
    }
    r
}

/// Whether two byte strings are equal.
fn bytes_equal(a: &[u8], b: &[u8]) -> (r: bool)
    ensures
        r == (a@ =~= b@),
{
    if a.len() != b.len() {
        return false;
    }
    let mut i: usize = 0;
    while i < a.len()
        invariant
            a@.len() == b@.len(),
            i <= a@.len(),
            forall|k: int| 0 <= k < i ==> a@[k] == b@[k],
        decreases a.len() - i,
    {
        if a[i] != b[i] {
            return false;
        }
        i = i + 1;
    }
    true
}

/// The number of the `go` word `t` is, 10 when it is none.
fn go_key(t: &[u8]) -> (r: usize)
    ensures
        r == go_key_from(t@, 0),
{
    let mut k: usize = 0;
    while k < 10
        invariant
            k <= 10,
            go_key_from(t@, 0) == go_key_from(t@, k as int),
        decreases 10 - k,
    {
        let word = go_word_bytes(k);
        if bytes_equal(t, word.as_slice()) {
            return k;
        }
        k = k + 1;
    }
    10
}

/// Reads a `u64` as `u64::from_str` does, 0 when the text is no `u64`.
fn parse_u64_or_zero(t: &[u8]) -> (r: u64)
    ensures
        r == u64_or_zero(t@),
{
    let ghost s = t@;
    let mut start: usize = 0;
    if t.len() > 0 && t[0] == 43 {
        start = 1;
    }
    let ghost d = s.subrange(start as int, s.len() as int);
    proof {
        assert(unsigned_digits(s) =~= d);
    }
    if start == t.len() {
        return 0;
    }
    let mut value: u64 = 0;
    let mut i = start;
    while i < t.len()
        invariant
            s == t@,
            start <= i <= s.len(),
            d == s.subrange(start as int, s.len() as int),
            d == unsigned_digits(s),
            d.len() >= 1,
            forall|k: int| 0 <= k < i - start ==> is_digit(#[trigger] d[k]),
            value == digits_value(d.take(i - start)),
        decreases s.len() - i,
    {
        let c = t[i];
        proof {
            assert(d[i - start] == c);
            assert(d.take(i - start + 1).drop_last() =~= d.take(i - start));
        }
        if c < 48 || c > 57 {
            proof {
                assert(!is_digit(d[i - start]));
                assert(!all_digits(d));
            }
            return 0;
        }
        match value.checked_mul(10) {
            Some(tens) => match tens.checked_add((c - 48) as u64) {
                Some(next) => {
                    value = next;
                },
                None => {
                    proof {
                        if all_digits(d) {
                            lemma_digits_prefix_mono(d, i - start + 1);
                        }
                    }
                    return 0;
                },
            },
            None => {
                proof {
                    if all_digits(d) {
                        lemma_digits_prefix_mono(d, i - start + 1);
                    }
                }
                return 0;
            },
        }
        i = i + 1;
    }
    proof {
        assert(d.take(i - start) =~= d);
    }
    value
}

impl SearchRules {
    /// The search limits a `go` command with the words `args` sets for the side to move
    /// (white when `white_to_move`), with `avg_depth` the average depth reached so far and
    /// `move_overhead` the time kept in reserve; `None` where the depth or the time
    /// computation overflows.
    pub fn from_go_arguments(args: &Vec<String>, white_to_move: bool, avg_depth: u32, move_overhead: u64) -> (r:
        Option<SearchRules>)
        ensures
            r == go_rules(args@.map_values(|a: String| encode_utf8(a@)), white_to_move, avg_depth, move_overhead),
    {
        let ghost tokens = args@.map_values(|a: String| encode_utf8(a@));
        let mut limits = GoLimits {
            rules: SearchRules::new(),
            wtime: 0,
            btime: 0,
            winc: 0,
            binc: 0,
            movestogo: 0,
        };
        if args.len() == 0 {
            limits.rules.infinite = true;
        }
        proof {
            assert(limits == go_start(tokens));
        }
        let mut i: usize = 0;
        while i < args.len()
            invariant
                tokens == args@.map_values(|a: String| encode_utf8(a@)),
                i <= args@.len(),
                go_scan(tokens, 0, go_start(tokens), avg_depth) == go_scan(tokens, i as int, limits, avg_depth),
            decreases args.len() - i,
        {
            let token = args[i].as_str().as_bytes();
            proof {
                assert(token@ == tokens[i as int]);
            }
            let key = go_key(token);
            if key == 0 {
                limits.rules.infinite = true;
            } else if key <= 9 && i + 1 < args.len() {
                let value_text = args[i + 1].as_str().as_bytes();
                proof {
                    assert(value_text@ == tokens[i + 1]);
                }
                let value = parse_u64_or_zero(value_text);
                if key == 1 {
                    limits.wtime = value;
                } else if key == 2 {
                    limits.btime = value;
                } else if key == 3 {
                    limits.winc = value;
                } else if key == 4 {
                    limits.binc = value;
                } else if key == 5 {
                    limits.movestogo = value;
                } else if key == 6 {
                    match (value as u32).checked_add(avg_depth) {
                        Some(depth) => {
                            limits.rules.max_depth = depth;
                        },
                        None => {
                            proof {
                                assert(go_apply(limits, 6, value, avg_depth) == None::<GoLimits>);
                                assert(go_scan(tokens, i as int, limits, avg_depth) == None::<GoLimits>);
                            }
                            return None;
                        },
                    }
                } else if key == 7 {
                    limits.rules.max_nodes = value as u32;
                } else if key == 9 {
                    limits.rules.time_for_move = value;
                }
                i = i + 1;
            }
            i = i + 1;
        }
        let (time, increment, moves_to_go) = if white_to_move {
            (limits.wtime, limits.winc, limits.movestogo)
        } else {
            (limits.btime, limits.binc, limits.movestogo)
        };
        if time > 0 {
            let divider: u64 = if moves_to_go > 0 { moves_to_go } else { 20 };
            let share = time / divider;
            let half = increment / 2;
            match share.checked_add(half) {
                Some(sum) => {
                    if sum < move_overhead {
                        return None;
                    }
                },
                None => {
                    return None;
                },
            }
            limits.rules.time_for_move = SearchRules::calculate_time(time, increment, moves_to_go, move_overhead);
        }
        Some(limits.rules)
    }
}

} // verus!
