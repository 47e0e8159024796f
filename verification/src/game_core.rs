//! Shared vocabulary of every game: AI strength presets and layout math.

use vstd::prelude::*;

pub mod geom;
pub mod text;
pub mod seat;

verus! {

/// Strength presets for built-in AI opponents, in menu order.
#[derive(Clone, Copy, PartialEq, Eq, Debug, Structural)]
pub enum Difficulty {
    /// Shallow search, prone to mistakes.
    Easy,
    /// Solid tactical heuristics.
    Medium,
    /// Deeper search, few free gifts.
    Hard,
}

/// Short uppercase label of a preset, as a character sequence.
pub open spec fn difficulty_label(d: Difficulty) -> Seq<char> {
    match d {
        Difficulty::Easy => "EASY"@,
        Difficulty::Medium => "MEDIUM"@,
        Difficulty::Hard => "HARD"@,
    }
}

impl Difficulty {
    /// All presets in menu order.
    pub const ALL: [Difficulty; 3] = [Difficulty::Easy, Difficulty::Medium, Difficulty::Hard];

    /// Short uppercase label for menus, e.g. `"EASY"`.
    pub fn label(self) -> (r: &'static str)
        ensures
            r@ == difficulty_label(self),
    {
        match self {
            Difficulty::Easy => "EASY",
            Difficulty::Medium => "MEDIUM",
            Difficulty::Hard => "HARD",
        }
    }
}

/// `b` is the first position holding the largest entry of `s`.
pub open spec fn first_max(s: Seq<int>, b: int) -> bool {
    &&& 0 <= b < s.len()
    &&& forall|k: int| 0 <= k < s.len() ==> s[k] <= s[b]
    &&& forall|k: int| 0 <= k < b ==> s[k] < s[b]
}

/// `b` is the last position holding the largest entry of `s`.
pub open spec fn last_max(s: Seq<int>, b: int) -> bool {
    &&& 0 <= b < s.len()
    &&& forall|k: int| 0 <= k < s.len() ==> s[k] <= s[b]
    &&& forall|k: int| b < k < s.len() ==> s[k] < s[b]
}

/// The first position of a largest entry of a non-empty `s`.
pub open spec fn first_argmax(s: Seq<int>) -> int {
    choose|b: int| first_max(s, b)
}

/// The last position of a largest entry of a non-empty `s`.
pub open spec fn last_argmax(s: Seq<int>) -> int {
    choose|b: int| last_max(s, b)
}

/// A first largest entry is the only one.
pub proof fn lemma_first_max_unique(s: Seq<int>, b: int)
    requires
        first_max(s, b),
    ensures
        first_argmax(s) == b,
{
    let c = first_argmax(s);
    assert(first_max(s, c));
    if c < b {
        assert(s[c] < s[b]);
    } else if b < c {
        assert(s[b] < s[c]);
    }
}

/// Extending a scan for the first maximum by one score: a strictly higher
/// score takes over, any other leaves the pick.
pub proof fn lemma_first_max_extend(s: Seq<int>, i: int, prev: int)
    requires
        0 <= i < s.len(),
        i > 0 ==> first_max(s.take(i), prev),
    ensures
        i == 0 || s[i] > s[prev] ==> first_max(s.take(i + 1), i),
        i > 0 && s[i] <= s[prev] ==> first_max(s.take(i + 1), prev),
{
    let t = s.take(i + 1);
    let t0 = s.take(i);
    assert(forall|m: int| 0 <= m < t.len() ==> #[trigger] t[m] == s[m]);
    assert(forall|m: int| 0 <= m < t0.len() ==> #[trigger] t0[m] == s[m]);
}

/// A last largest entry is the only one.
pub proof fn lemma_last_max_unique(s: Seq<int>, b: int)
    requires
        last_max(s, b),
    ensures
        last_argmax(s) == b,
{
    let c = last_argmax(s);
    assert(last_max(s, c));
    if c < b {
        assert(s[b] < s[c]);
    } else if b < c {
        assert(s[c] < s[b]);
    }
}

/// The entries of `s` as mathematical integers.
pub open spec fn int_view(s: Seq<i64>) -> Seq<int> {
    Seq::new(s.len(), |k: int| s[k] as int)
}

/// Entry `a` of `o` ranks before entry `b`: a higher score, or an equal
/// score and an earlier position.
pub open spec fn ranks_before(s: Seq<int>, o: Seq<usize>, a: int, b: int) -> bool {
    s[o[a] as int] > s[o[b] as int] || (s[o[a] as int] == s[o[b] as int] && o[a] < o[b])
}

/// `o` lists every position of `s` once, highest score first, equal
/// scores in the order `s` gives them.
pub open spec fn ranking(s: Seq<int>, o: Seq<usize>) -> bool {
    &&& o.len() == s.len()
    &&& o.no_duplicates()
    &&& forall|q: int| 0 <= q < o.len() ==> #[trigger] o[q] < s.len()
    &&& forall|a: int, b: int| 0 <= a < b < o.len() ==> #[trigger] ranks_before(s, o, a, b)
}

/// Positions `0..scores.len()` ordered by score, highest first; equal
/// scores keep their order.
pub fn rank_desc(scores: &Vec<i64>) -> (order: Vec<usize>)
    ensures
        order@.len() == scores@.len(),
        forall|q: int| 0 <= q < order@.len() ==> #[trigger] order@[q] < scores@.len(),
        ranking(int_view(scores@), order@),
{
    let ghost sv = int_view(scores@);
    let mut order: Vec<usize> = Vec::new();
    let mut i: usize = 0;
    while i < scores.len()
        invariant
            sv == int_view(scores@),
            0 <= i <= scores@.len(),
            order@.len() == i,
            order@.no_duplicates(),
            forall|q: int| 0 <= q < order@.len() ==> #[trigger] order@[q] < i,
            forall|a: int, b: int| 0 <= a < b < order@.len() ==> #[trigger] ranks_before(sv, order@, a, b),
        decreases scores@.len() - i,
    {
        // Insert `i` after every entry scoring at least as much.
        let mut pos: usize = order.len();
        while pos > 0 && scores[order[pos - 1]] < scores[i]
            invariant
                sv == int_view(scores@),
                0 <= pos <= order@.len(),
                order@.len() == i,
                i < scores@.len(),
                forall|q: int| 0 <= q < order@.len() ==> #[trigger] order@[q] < i,
                forall|q: int| pos <= q < order@.len() ==> sv[#[trigger] order@[q] as int] < sv[i as int],
            decreases pos,
        {
            pos -= 1;
        }
        let ghost prev = order@;
        proof {
            prev.insert_ensures(pos as int, i);
            assert(pos > 0 ==> sv[prev[pos - 1] as int] >= sv[i as int]);
        }
        order.insert(pos, i);
        proof {
            let cur = order@;
            assert forall|x: int| 0 <= x < cur.len() implies #[trigger] cur[x] == if x < pos {
                prev[x]
            } else if x == pos {
                i
            } else {
                prev[x - 1]
            } by {
                if x > pos {
                    assert(cur[(x - 1) + 1] == prev[x - 1]);
                }
            }
            assert forall|q: int| 0 <= q < cur.len() implies #[trigger] cur[q] < i + 1 by {
                if q > pos {
                    assert(cur[q] == prev[q - 1]);
                }
            }
            assert forall|a: int, b: int| 0 <= a < cur.len() && 0 <= b < cur.len() && a != b implies cur[a]
                != cur[b] by {
                if a != pos as int && b != pos as int {
                    let pa = if a < pos {
                        a
                    } else {
                        a - 1
                    };
                    let pb = if b < pos {
                        b
                    } else {
                        b - 1
                    };
                    assert(cur[a] == prev[pa] && cur[b] == prev[pb]);
                } else if a == pos as int {
                    let pb = if b < pos {
                        b
                    } else {
                        b - 1
                    };
                    assert(cur[b] == prev[pb]);
                } else {
                    let pa = if a < pos {
                        a
                    } else {
                        a - 1
                    };
                    assert(cur[a] == prev[pa]);
                }
            }
            assert forall|a: int, b: int| 0 <= a < b < cur.len() implies #[trigger] ranks_before(
                sv,
                cur,
                a,
                b,
            ) by {
                if b < pos {
                    assert(ranks_before(sv, prev, a, b));
                } else if b == pos {
                    if a < pos - 1 {
                        assert(ranks_before(sv, prev, a, pos - 1));
                    }
                } else if a < pos {
                    assert(ranks_before(sv, prev, a, b - 1));
                } else if a == pos {
                    assert(cur[b] == prev[b - 1]);
                } else {
                    assert(ranks_before(sv, prev, a - 1, b - 1));
                }
            }
        }
        i += 1;
    }
    order
}

} // verus!
