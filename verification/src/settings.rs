//! The constants that steer the search, and the bound they put on scores.

use vstd::prelude::*;

verus! {

/// How the search settles a tie between equally scored root moves.
#[derive(Clone, Copy, Debug, PartialEq, Eq, Structural)]
pub enum TieBreak {
    /// The move that was enumerated first stays.
    FirstSeen,
    /// A coin is flipped each time a later move equals the leader.
    CoinFlip,
}

/// Search depth, depth discount and the two bonuses of the heuristic.
#[derive(Clone, Copy, Debug)]
pub struct Settings {
    /// Number of plies explored below each root move.
    pub max_depth: usize,
    /// Growth of the divisor applied to child scores, per ply.
    pub depth_weight: usize,
    /// Added to the score of a move onto a corner cell.
    pub corner_value: i64,
    /// Added to, or taken from, the score of a position in which one colour
    /// has no disk left.
    pub zero_disk_value: i64,
    /// Policy for equal scores at the root.
    pub tie_break: TieBreak,
}

/// Absolute value.
pub open spec fn magnitude(x: int) -> int {
    if x < 0 {
        -x
    } else {
        x
    }
}

/// Largest magnitude of a score in a subtree of `levels` plies whose
/// positions each score at most `leaf` in magnitude: a node adds to its own
/// score those of at most 64 children.
pub open spec fn score_cap(leaf: int, levels: int) -> int
    decreases levels,
{
    if levels <= 0 {
        leaf
    } else {
        leaf + 64 * score_cap(leaf, levels - 1)
    }
}

impl Settings {
    /// Largest magnitude of the heuristic value of one position.
    pub open spec fn leaf_cap(&self) -> int {
        64 + magnitude(self.corner_value as int) + magnitude(self.zero_disk_value as int)
    }

    /// The scores of a full search fit in 64 bits, and so does the largest
    /// divisor.
    pub open spec fn wf(&self) -> bool {
        &&& self.max_depth * self.depth_weight < i64::MAX
        &&& score_cap(self.leaf_cap(), self.max_depth as int) <= i64::MAX
    }

    /// The settings with these values, if scores cannot overflow under them.
    pub fn new(
        max_depth: usize,
        depth_weight: usize,
        corner_value: i64,
        zero_disk_value: i64,
        tie_break: TieBreak,
    ) -> (settings: Option<Settings>)
        ensures
            settings is Some == (Settings {
                max_depth,
                depth_weight,
                corner_value,
                zero_disk_value,
                tie_break,
            }).wf(),
            settings matches Some(s) ==> s == (Settings {
                max_depth,
                depth_weight,
                corner_value,
                zero_disk_value,
                tie_break,
            }),
    {
        let candidate = Settings { max_depth, depth_weight, corner_value, zero_disk_value, tie_break };
        let product = (max_depth as u64).checked_mul(depth_weight as u64);
        match product {
            Some(p) => {
                if p >= i64::MAX as u64 {
                    return None;
                }
            },
            None => {
                return None;
            },
        }
        let limit: i128 = i64::MAX as i128;
        let corner: i128 = if corner_value < 0 {
            -(corner_value as i128)
        } else {
            corner_value as i128
        };
        let zero: i128 = if zero_disk_value < 0 {
            -(zero_disk_value as i128)
        } else {
            zero_disk_value as i128
        };
        let leaf: i128 = 64 + corner + zero;
        if leaf > limit {
            proof {
                lemma_score_cap_grows(leaf as int, 0, max_depth as int);
            }
            return None;
        }
        let mut cap: i128 = leaf;
        let mut level: usize = 0;
        while level < max_depth
            invariant
                level <= max_depth,
                limit == i64::MAX,
                64 <= leaf <= limit,
                leaf == candidate.leaf_cap(),
                cap == score_cap(leaf as int, level as int),
                leaf <= cap <= limit,
                candidate == (Settings {
                    max_depth,
                    depth_weight,
                    corner_value,
                    zero_disk_value,
                    tie_break,
                }),
            decreases max_depth - level,
        {
            let next: i128 = leaf + 64 * cap;
            if next > limit {
                proof {
                    lemma_score_cap_grows(leaf as int, level as int + 1, max_depth as int);
                }
                return None;
            }
            proof {
                lemma_score_cap_grows(leaf as int, 0, level as int + 1);
            }
            cap = next;
            level += 1;
        }
        Some(candidate)
    }
}

/// More plies never lower the cap.
pub proof fn lemma_score_cap_grows(leaf: int, a: int, b: int)
    requires
        0 <= leaf,
        a <= b,
    ensures
        0 <= leaf <= score_cap(leaf, a) <= score_cap(leaf, b),
    decreases b - a, a,
{
    if a < b {
        lemma_score_cap_grows(leaf, a, b - 1);
        if b > 0 {
            lemma_score_cap_grows(leaf, b - 1, b - 1);
        } else {
        }
    } else if a > 0 {
        lemma_score_cap_grows(leaf, a - 1, a - 1);
    }
}

/// Settings under which scores fit explore fewer than ten plies.
pub proof fn lemma_depth_is_small(settings: Settings)
    requires
        settings.wf(),
    ensures
        settings.max_depth < 10,
        64 <= settings.leaf_cap() <= i64::MAX,
{
    let leaf = settings.leaf_cap();
    lemma_score_cap_grows(leaf, 0, settings.max_depth as int);
    if settings.max_depth >= 10 {
        lemma_score_cap_grows(leaf, 10, settings.max_depth as int);
        reveal_with_fuel(score_cap, 11);
        assert(score_cap(leaf, 10) > i64::MAX);
    }
}

} // verus!
