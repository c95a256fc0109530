use crate::hand::{
    bump, chi_at, lower, run_at, score, search, standard_distance, tally,
};
use crate::tile::Tile;
use vstd::prelude::*;

verus! {

/// A group drawn from a hand, given by its kind and its lowest identity.
/// Kinds: 0 a quad, 1 a triplet, 2 a run, 3 the pair, 4 two equal tiles,
/// 5 two consecutive tiles of a suit.
pub open spec fn block_ok(b: (nat, nat)) -> bool {
    &&& b.0 < 6
    &&& b.1 < 34
    &&& b.0 == 2 ==> b.1 < 27 && b.1 % 9 <= 6
    &&& b.0 == 5 ==> b.1 < 27 && b.1 % 9 <= 7
}

/// How many tiles of identity `k` the group `b` uses.
pub open spec fn need(b: (nat, nat), k: nat) -> nat {
    if b.0 == 0 {
        if k == b.1 { 4 } else { 0 }
    } else if b.0 == 1 {
        if k == b.1 { 3 } else { 0 }
    } else if b.0 == 2 {
        if b.1 <= k <= b.1 + 2 { 1 } else { 0 }
    } else if b.0 == 5 {
        if b.1 <= k <= b.1 + 1 { 1 } else { 0 }
    } else {
        if k == b.1 { 2 } else { 0 }
    }
}

/// How many tiles of identity `k` the groups `bs` use together.
pub open spec fn uses(bs: Seq<(nat, nat)>, k: nat) -> nat
    decreases bs.len(),
{
    if bs.len() == 0 {
        0
    } else {
        uses(bs.drop_last(), k) + need(bs.last(), k)
    }
}

/// How many of the groups `bs` are of a kind in `lo..=hi`.
pub open spec fn kinds(bs: Seq<(nat, nat)>, lo: nat, hi: nat) -> nat
    decreases bs.len(),
{
    if bs.len() == 0 {
        0
    } else {
        kinds(bs.drop_last(), lo, hi) + (if lo <= bs.last().0 <= hi {
            1nat
        } else {
            0
        })
    }
}

/// The groups `bs` can be drawn at once from the counts `c`: no tile serves
/// twice, and there is at most one pair.
pub open spec fn fits(bs: Seq<(nat, nat)>, c: Seq<u8>) -> bool {
    &&& forall|j: int| 0 <= j < bs.len() ==> block_ok(#[trigger] bs[j])
    &&& forall|k: nat| k < 34 ==> #[trigger] uses(bs, k) <= c[k as int]
    &&& kinds(bs, 3, 3) <= 1
}

/// The distance that the decomposition `bs` stands for.
pub open spec fn value(bs: Seq<(nat, nat)>) -> nat {
    score(kinds(bs, 0, 2), kinds(bs, 4, 5), kinds(bs, 3, 3) == 1)
}

proof fn lemma_remove_block(bs: Seq<(nat, nat)>, j: int, k: nat, lo: nat, hi: nat)
    requires
        0 <= j < bs.len(),
    ensures
        uses(bs, k) == uses(bs.remove(j), k) + need(bs[j], k),
        kinds(bs, lo, hi) == kinds(bs.remove(j), lo, hi) + (if lo <= bs[j].0 <= hi {
            1nat
        } else {
            0
        }),
    decreases bs.len(),
{
    if j < bs.len() - 1 {
        assert(bs.remove(j).drop_last() =~= bs.drop_last().remove(j));
        lemma_remove_block(bs.drop_last(), j, k, lo, hi);
    } else {
        assert(bs.remove(j) =~= bs.drop_last());
    }
}

proof fn lemma_score_cap(a: nat, b: nat, p: nat, q: nat, pair: bool)
    requires
        a == b || (a >= 4 && b >= 4),
        p == q || (p >= 4 && q >= 4),
    ensures
        score(a, p, pair) == score(b, q, pair),
{
}

spec fn next_melds(m: nat, b: (nat, nat)) -> nat {
    if b.0 <= 2 {
        bump(m)
    } else {
        m
    }
}

spec fn next_partial(p: nat, b: (nat, nat)) -> nat {
    if b.0 == 4 || b.0 == 5 {
        bump(p)
    } else {
        p
    }
}

/// The counts left once the group `b` is taken out of `c`.
pub open spec fn after(c: Seq<u8>, b: (nat, nat)) -> Seq<u8> {
    let k = b.1 as int;
    if b.0 == 0 {
        lower(c, k, 4)
    } else if b.0 == 1 {
        lower(c, k, 3)
    } else if b.0 == 2 {
        lower(lower(lower(c, k, 1), k + 1, 1), k + 2, 1)
    } else if b.0 == 5 {
        lower(lower(c, k, 1), k + 1, 1)
    } else {
        lower(c, k, 2)
    }
}

proof fn lemma_after(c: Seq<u8>, b: (nat, nat))
    requires
        c.len() == 34,
        block_ok(b),
        forall|t: nat| t < 34 ==> #[trigger] need(b, t) <= c[t as int],
    ensures
        after(c, b).len() == 34,
        forall|t: nat| t < 34 ==> #[trigger] after(c, b)[t as int] == c[t as int] - need(b, t),
{
    assert(need(b, b.1) <= c[b.1 as int]);
    if b.0 == 2 {
        assert(need(b, b.1 + 1) <= c[b.1 + 1int]);
        assert(need(b, b.1 + 2) <= c[b.1 + 2int]);
    }
    if b.0 == 5 {
        assert(need(b, b.1 + 1) <= c[b.1 + 1int]);
    }
}

proof fn lemma_branch(c: Seq<u8>, m: nat, p: nat, pr: bool, b: (nat, nat))
    requires
        c.len() == 34,
        block_ok(b),
        forall|t: nat| t < 34 ==> #[trigger] need(b, t) <= c[t as int],
        b.0 == 3 ==> !pr,
    ensures
        search(c, b.1, m, p, pr) <= search(
            after(c, b),
            b.1,
            next_melds(m, b),
            next_partial(p, b),
            pr || b.0 == 3,
        ),
{
    let k = b.1 as int;
    assert(need(b, b.1) <= c[k]);
    if b.0 == 2 {
        assert(need(b, b.1 + 1) <= c[k + 1]);
        assert(need(b, b.1 + 2) <= c[k + 2]);
        assert(chi_at(c, k));
    }
    if b.0 == 5 {
        assert(need(b, b.1 + 1) <= c[k + 1]);
        assert(run_at(c, k));
    }
}

#[verifier::rlimit(40)]
proof fn lemma_search_covers(
    c: Seq<u8>,
    i: nat,
    m: nat,
    p: nat,
    pr: bool,
    bs: Seq<(nat, nat)>,
)
    requires
        c.len() == 34,
        i <= 34,
        forall|j: int| 0 <= j < bs.len() ==> block_ok(#[trigger] bs[j]) && bs[j].1 >= i,
        forall|k: nat| k < 34 ==> #[trigger] uses(bs, k) <= c[k as int],
        kinds(bs, 3, 3) <= (if pr {
            0nat
        } else {
            1
        }),
    ensures
        search(c, i, m, p, pr) <= score(
            m + kinds(bs, 0, 2),
            p + kinds(bs, 4, 5),
            pr || kinds(bs, 3, 3) == 1,
        ),
    decreases 34 - i, c[i as int],
{
    if i >= 34 {
        if bs.len() > 0 {
            assert(block_ok(bs[0]));
        }
        assert(kinds(bs, 0, 2) == 0 && kinds(bs, 4, 5) == 0 && kinds(bs, 3, 3) == 0);
    } else if exists|j: int| 0 <= j < bs.len() && (#[trigger] bs[j]).1 == i {
        let j = choose|j: int| 0 <= j < bs.len() && (#[trigger] bs[j]).1 == i;
        let b = bs[j];
        let rest = bs.remove(j);
        assert(block_ok(b));
        assert forall|t: nat| #[trigger] uses(bs, t) == uses(rest, t) + need(b, t) by {
            lemma_remove_block(bs, j, t, 0, 2);
        }
        lemma_remove_block(bs, j, 0, 0, 2);
        lemma_remove_block(bs, j, 0, 4, 5);
        lemma_remove_block(bs, j, 0, 3, 3);
        assert forall|x: int| 0 <= x < rest.len() implies block_ok(#[trigger] rest[x]) && rest[x].1
            >= i by {
            assert(rest[x] == bs[if x < j { x } else { x + 1 }]);
        }
        assert forall|t: nat| t < 34 implies #[trigger] need(b, t) <= c[t as int] by {
            assert(uses(bs, t) <= c[t as int]);
        }
        let d = after(c, b);
        lemma_after(c, b);
        assert forall|t: nat| t < 34 implies #[trigger] uses(rest, t) <= d[t as int] by {
            assert(uses(bs, t) <= c[t as int]);
        }
        let m2 = next_melds(m, b);
        let p2 = next_partial(p, b);
        let pr2 = pr || b.0 == 3;
        assert(d[i as int] < c[i as int]);
        lemma_search_covers(d, i, m2, p2, pr2, rest);
        lemma_score_cap(
            m2 + kinds(rest, 0, 2),
            m + kinds(bs, 0, 2),
            p2 + kinds(rest, 4, 5),
            p + kinds(bs, 4, 5),
            pr || kinds(bs, 3, 3) == 1,
        );
        lemma_branch(c, m, p, pr, b);
    } else {
        assert forall|j: int| 0 <= j < bs.len() implies block_ok(#[trigger] bs[j]) && bs[j].1 >= i
            + 1 by {
            assert(bs[j].1 != i);
        }
        assert(search(c, i, m, p, pr) <= search(c, i + 1, m, p, pr));
        lemma_search_covers(c, i + 1, m, p, pr, bs);
    }
}

/// No way of drawing groups from a hand, each tile used at most once and at
/// most one pair, stands for a distance below the standard distance.
pub proof fn lemma_standard_is_least(s: Seq<Tile>, bs: Seq<(nat, nat)>)
    requires
        fits(bs, tally(s)),
    ensures
        standard_distance(s) <= value(bs),
{
    lemma_search_covers(tally(s), 0, 0, 0, false, bs);
    assert forall|j: int| 0 <= j < bs.len() implies block_ok(#[trigger] bs[j]) && bs[j].1 >= 0 by {
    }
}

/// Which step the search takes at identity `i`: `None` when it moves on,
/// else the group it takes.
proof fn lemma_search_choice(c: Seq<u8>, i: nat, m: nat, p: nat, pr: bool) -> (r: Option<(nat, nat)>)
    requires
        c.len() == 34,
        i < 34,
    ensures
        r is None ==> search(c, i, m, p, pr) == search(c, i + 1, m, p, pr),
        r matches Some(b) ==> {
            &&& b.1 == i
            &&& block_ok(b)
            &&& forall|t: nat| t < 34 ==> #[trigger] need(b, t) <= c[t as int]
            &&& (b.0 == 3 ==> !pr)
            &&& search(c, i, m, p, pr) == search(
                after(c, b),
                i,
                next_melds(m, b),
                next_partial(p, b),
                pr || b.0 == 3,
            )
        },
{
    let k = i as int;
    let n = c[k];
    let v = search(c, i, m, p, pr);
    let opt = |b: (nat, nat)| search(after(c, b), i, next_melds(m, b), next_partial(p, b), pr || b.0 == 3);
    if n >= 4 && v == opt((0, i)) {
        Some((0nat, i))
    } else if n >= 3 && v == opt((1, i)) {
        Some((1nat, i))
    } else if chi_at(c, k) && v == opt((2, i)) {
        Some((2nat, i))
    } else if n >= 2 && !pr && v == opt((3, i)) {
        Some((3nat, i))
    } else if n >= 2 && v == opt((4, i)) {
        Some((4nat, i))
    } else if run_at(c, k) && v == opt((5, i)) {
        Some((5nat, i))
    } else {
        None
    }
}

proof fn lemma_search_attained(c: Seq<u8>, i: nat, m: nat, p: nat, pr: bool) -> (bs: Seq<(nat, nat)>)
    requires
        c.len() == 34,
        i <= 34,
    ensures
        forall|j: int| 0 <= j < bs.len() ==> block_ok(#[trigger] bs[j]),
        forall|k: nat| k < 34 ==> #[trigger] uses(bs, k) <= c[k as int],
        kinds(bs, 3, 3) <= (if pr {
            0nat
        } else {
            1
        }),
        search(c, i, m, p, pr) == score(
            m + kinds(bs, 0, 2),
            p + kinds(bs, 4, 5),
            pr || kinds(bs, 3, 3) == 1,
        ),
    decreases 34 - i, c[i as int],
{
    if i >= 34 {
        Seq::empty()
    } else {
        let choice = lemma_search_choice(c, i, m, p, pr);
        match choice {
            None => lemma_search_attained(c, i + 1, m, p, pr),
            Some(b) => {
                let d = after(c, b);
                lemma_after(c, b);
                assert(d[i as int] < c[i as int]);
                let rest = lemma_search_attained(
                    d,
                    i,
                    next_melds(m, b),
                    next_partial(p, b),
                    pr || b.0 == 3,
                );
                let bs = rest.push(b);
                assert(bs.drop_last() =~= rest);
                assert forall|j: int| 0 <= j < bs.len() implies block_ok(#[trigger] bs[j]) by {
                    if j < rest.len() {
                        assert(bs[j] == rest[j]);
                    }
                }
                assert forall|t: nat| t < 34 implies #[trigger] uses(bs, t) <= c[t as int] by {
                    assert(uses(bs, t) == uses(rest, t) + need(b, t));
                }
                lemma_score_cap(
                    next_melds(m, b) + kinds(rest, 0, 2),
                    m + kinds(bs, 0, 2),
                    next_partial(p, b) + kinds(rest, 4, 5),
                    p + kinds(bs, 4, 5),
                    pr || kinds(bs, 3, 3) == 1,
                );
                bs
            },
        }
    }
}

/// Some way of drawing groups from the hand stands for exactly the standard
/// distance.
pub proof fn lemma_standard_is_attained(s: Seq<Tile>) -> (bs: Seq<(nat, nat)>)
    ensures
        fits(bs, tally(s)),
        value(bs) == standard_distance(s),
{
    lemma_search_attained(tally(s), 0, 0, 0, false)
}

} // verus!
