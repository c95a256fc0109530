use crate::tile::{Group, Tile};
use vstd::prelude::*;
use vstd::std_specs::cmp::PartialEqSpec;

verus! {

broadcast use vstd::seq_lib::group_to_multiset_ensures;

/// Tiles ordered by identity.
pub open spec fn sorted(s: Seq<Tile>) -> bool {
    forall|i: int, j: int| 0 <= i < j < s.len() ==> s[i].id() <= s[j].id()
}

/// How many tiles of `s` have identity `k`.
pub open spec fn count_of(s: Seq<Tile>, k: nat) -> nat
    decreases s.len(),
{
    if s.len() == 0 {
        0
    } else {
        count_of(s.drop_last(), k) + (if s.last().id() == k {
            1nat
        } else {
            0
        })
    }
}

/// The number of tiles of each of the 34 identities.
pub open spec fn tally(s: Seq<Tile>) -> Seq<u8> {
    Seq::new(34, |k: int| count_of(s, k as nat) as u8)
}

/// Identities below `n` held at least twice.
pub open spec fn pairs_below(c: Seq<u8>, n: nat) -> nat
    decreases n,
{
    if n == 0 {
        0
    } else {
        pairs_below(c, (n - 1) as nat) + (if c[n - 1] >= 2 {
            1nat
        } else {
            0
        })
    }
}

/// Terminals of the three suits, winds and dragons.
pub open spec fn is_orphan(k: nat) -> bool {
    k == 0 || k == 8 || k == 9 || k == 17 || k == 18 || k == 26 || (27 <= k < 34)
}

/// Qualifying identities below `n` that are present.
pub open spec fn orphans_below(c: Seq<u8>, n: nat) -> nat
    decreases n,
{
    if n == 0 {
        0
    } else {
        orphans_below(c, (n - 1) as nat) + (if is_orphan((n - 1) as nat) && c[n - 1] >= 1 {
            1nat
        } else {
            0
        })
    }
}

/// Whether some qualifying identity below `n` is held twice or more.
pub open spec fn orphan_pair_below(c: Seq<u8>, n: nat) -> bool
    decreases n,
{
    n > 0 && (orphan_pair_below(c, (n - 1) as nat) || (is_orphan((n - 1) as nat) && c[n
        - 1] >= 2))
}

pub open spec fn min_nat(a: nat, b: nat) -> nat {
    if a <= b {
        a
    } else {
        b
    }
}

/// Distance to a ready hand of seven pairs.
pub open spec fn seven_pairs_distance(s: Seq<Tile>) -> nat {
    (6 - min_nat(pairs_below(tally(s), 34), 6)) as nat
}

pub open spec fn orphan_score(s: Seq<Tile>) -> nat {
    orphans_below(tally(s), 34) + (if orphan_pair_below(tally(s), 34) {
        1nat
    } else {
        0
    })
}

/// Distance to a ready hand of thirteen orphans.
pub open spec fn thirteen_orphans_distance(s: Seq<Tile>) -> nat {
    (13 - min_nat(orphan_score(s), 13)) as nat
}

pub proof fn lemma_count_step(s: Seq<Tile>, j: int, k: nat)
    requires
        0 <= j < s.len(),
    ensures
        count_of(s.take(j + 1), k) == count_of(s.take(j), k) + (if s[j].id() == k {
            1nat
        } else {
            0
        }),
{
    assert(s.take(j + 1).drop_last() =~= s.take(j));
}

pub proof fn lemma_count_le_len(s: Seq<Tile>, k: nat)
    ensures
        count_of(s, k) <= s.len(),
    decreases s.len(),
{
    if s.len() > 0 {
        lemma_count_le_len(s.drop_last(), k);
    }
}

/// Adds one to a group count; counts beyond four make no difference.
pub open spec fn bump(x: nat) -> nat {
    if x < 4 {
        x + 1
    } else {
        4
    }
}

/// Distance of a decomposition with `melds` complete groups, `partial`
/// partial groups and, when `pair` holds, a pair.
pub open spec fn score(melds: nat, partial: nat, pair: bool) -> nat {
    let m: int = if melds < 4 {
        melds as int
    } else {
        4
    };
    let p: int = if partial < 4 - m {
        partial as int
    } else {
        4 - m
    };
    let d: int = (4 - m) * 2 - p - (if pair {
        1int
    } else {
        0
    });
    if d < 0 {
        0
    } else {
        d as nat
    }
}

/// `c` with `n` tiles of identity `k` taken out.
pub open spec fn lower(c: Seq<u8>, k: int, n: int) -> Seq<u8> {
    c.update(k, (c[k] - n) as u8)
}

pub open spec fn chi_at(c: Seq<u8>, i: int) -> bool {
    i < 27 && i % 9 <= 6 && c[i] >= 1 && c[i + 1] >= 1 && c[i + 2] >= 1
}

pub open spec fn run_at(c: Seq<u8>, i: int) -> bool {
    i < 27 && i % 9 <= 7 && c[i] >= 1 && c[i + 1] >= 1
}

/// The best distance over every way to draw groups from the counts `c`,
/// where identities below `i` are done with. At identity `i` the search
/// either leaves the remaining copies unused and moves on, or takes a group
/// whose lowest identity is `i`: a quad, a triplet, a run, the pair, two
/// equal tiles as a partial triplet, or two consecutive tiles as a partial run.
pub open spec fn search(c: Seq<u8>, i: nat, melds: nat, partial: nat, pair: bool) -> nat
    decreases 34 - i, c[i as int],
{
    if i >= 34 || c.len() != 34 {
        score(melds, partial, pair)
    } else {
        let k = i as int;
        let n = c[k];
        let a = search(c, i + 1, melds, partial, pair);
        let b = if n >= 4 {
            min_nat(a, search(lower(c, k, 4), i, bump(melds), partial, pair))
        } else {
            a
        };
        let d = if n >= 3 {
            min_nat(b, search(lower(c, k, 3), i, bump(melds), partial, pair))
        } else {
            b
        };
        let e = if chi_at(c, k) {
            min_nat(
                d,
                search(lower(lower(lower(c, k, 1), k + 1, 1), k + 2, 1), i, bump(melds), partial, pair),
            )
        } else {
            d
        };
        let f = if n >= 2 && !pair {
            min_nat(e, search(lower(c, k, 2), i, melds, partial, true))
        } else {
            e
        };
        let g = if n >= 2 {
            min_nat(f, search(lower(c, k, 2), i, melds, bump(partial), pair))
        } else {
            f
        };
        if run_at(c, k) {
            min_nat(g, search(lower(lower(c, k, 1), k + 1, 1), i, melds, bump(partial), pair))
        } else {
            g
        }
    }
}

/// Distance to a ready hand of four groups and a pair.
pub open spec fn standard_distance(s: Seq<Tile>) -> nat {
    search(tally(s), 0, 0, 0, false)
}

/// The distance that `shanten` reports: the best of the three shapes.
pub open spec fn shanten_of(s: Seq<Tile>) -> nat {
    min_nat(seven_pairs_distance(s), min_nat(thirteen_orphans_distance(s), standard_distance(s)))
}

pub proof fn lemma_search_bound(c: Seq<u8>, i: nat, melds: nat, partial: nat, pair: bool)
    ensures
        search(c, i, melds, partial, pair) <= score(melds, partial, pair),
    decreases 34 - i, c[i as int],
{
    if i < 34 && c.len() == 34 {
        lemma_search_bound(c, i + 1, melds, partial, pair);
    }
}

fn score_exec(melds: u8, partial: u8, pair: bool) -> (r: u8)
    requires
        melds <= 4,
        partial <= 4,
    ensures
        r as nat == score(melds as nat, partial as nat, pair),
{
    let m: u8 = melds;
    let p: u8 = if partial < 4 - m {
        partial
    } else {
        4 - m
    };
    let q: u8 = if pair {
        1
    } else {
        0
    };
    let full: u8 = (4 - m) * 2;
    if full < p + q {
        0
    } else {
        full - p - q
    }
}

fn bump_exec(x: u8) -> (r: u8)
    requires
        x <= 4,
    ensures
        r as nat == bump(x as nat),
        r <= 4,
{
    if x < 4 {
        x + 1
    } else {
        4
    }
}

fn min_u8(a: u8, b: u8) -> (r: u8)
    ensures
        r as nat == min_nat(a as nat, b as nat),
{
    if a <= b {
        a
    } else {
        b
    }
}

/// Runs `search` on the counts in `c`, which it changes on the way and
/// leaves as it found them.
fn search_exec(c: &mut Vec<u8>, i: usize, melds: u8, partial: u8, pair: bool) -> (r: u8)
    requires
        old(c)@.len() == 34,
        i <= 34,
        melds <= 4,
        partial <= 4,
    ensures
        final(c)@ == old(c)@,
        r as nat == search(old(c)@, i as nat, melds as nat, partial as nat, pair),
    decreases 34 - i, old(c)@[i as int],
{
    if i >= 34 {
        return score_exec(melds, partial, pair);
    }
    let ghost c0 = c@;
    let n = c[i];
    let mut best = search_exec(c, i + 1, melds, partial, pair);
    if n >= 4 {
        c.set(i, n - 4);
        assert(c@ == lower(c0, i as int, 4));
        let r = search_exec(c, i, bump_exec(melds), partial, pair);
        c.set(i, n);
        assert(c@ =~= c0);
        best = min_u8(best, r);
    }
    if n >= 3 {
        c.set(i, n - 3);
        assert(c@ == lower(c0, i as int, 3));
        let r = search_exec(c, i, bump_exec(melds), partial, pair);
        c.set(i, n);
        assert(c@ =~= c0);
        best = min_u8(best, r);
    }
    if i < 27 && i % 9 <= 6 && n >= 1 && c[i + 1] >= 1 && c[i + 2] >= 1 {
        let n1 = c[i + 1];
        let n2 = c[i + 2];
        c.set(i, n - 1);
        c.set(i + 1, n1 - 1);
        c.set(i + 2, n2 - 1);
        assert(c@ =~= lower(lower(lower(c0, i as int, 1), i + 1, 1), i + 2, 1));
        let r = search_exec(c, i, bump_exec(melds), partial, pair);
        c.set(i, n);
        c.set(i + 1, n1);
        c.set(i + 2, n2);
        assert(c@ =~= c0);
        best = min_u8(best, r);
    }
    if n >= 2 && !pair {
        c.set(i, n - 2);
        assert(c@ == lower(c0, i as int, 2));
        let r = search_exec(c, i, melds, partial, true);
        c.set(i, n);
        assert(c@ =~= c0);
        best = min_u8(best, r);
    }
    if n >= 2 {
        c.set(i, n - 2);
        assert(c@ == lower(c0, i as int, 2));
        let r = search_exec(c, i, melds, bump_exec(partial), pair);
        c.set(i, n);
        assert(c@ =~= c0);
        best = min_u8(best, r);
    }
    if i < 27 && i % 9 <= 7 && n >= 1 && c[i + 1] >= 1 {
        let n1 = c[i + 1];
        c.set(i, n - 1);
        c.set(i + 1, n1 - 1);
        assert(c@ =~= lower(lower(c0, i as int, 1), i + 1, 1));
        let r = search_exec(c, i, melds, bump_exec(partial), pair);
        c.set(i, n);
        c.set(i + 1, n1);
        assert(c@ =~= c0);
        best = min_u8(best, r);
    }
    best
}

/// What `group_type` answers for the tiles `s`.
pub open spec fn group_of(s: Seq<Tile>) -> Option<Group> {
    if s.len() == 4 && s[1].id() == s[0].id() && s[2].id() == s[0].id() && s[3].id() == s[0].id() {
        Some(Group::Kan)
    } else if s.len() == 3 && s[1].id() == s[0].id() && s[2].id() == s[0].id() {
        Some(Group::Pon)
    } else if s.len() == 3 && s[0].family() < 3 && s[1].family() == s[0].family() && s[2].family()
        == s[0].family() && s[1].id() == s[0].id() + 1 && s[2].id() == s[1].id() + 1 {
        Some(Group::Chi)
    } else {
        None
    }
}

/// A player's tiles, kept in order of identity.
pub struct Hand(Vec<Tile>);

impl View for Hand {
    type V = Seq<Tile>;

    closed spec fn view(&self) -> Seq<Tile> {
        self.0@
    }
}

/// Puts `t` into the ordered `v` after every tile of lower or equal identity.
fn insert_sorted(v: &mut Vec<Tile>, t: Tile)
    requires
        sorted(old(v)@),
    ensures
        sorted(final(v)@),
        final(v)@.len() == old(v)@.len() + 1,
        final(v)@.to_multiset() == old(v)@.to_multiset().insert(t),
{
    let k = t.identity();
    let mut p: usize = 0;
    while p < v.len() && v[p].identity() <= k
        invariant
            p <= v@.len(),
            sorted(v@),
            forall|j: int| 0 <= j < p ==> v@[j].id() <= k,
        decreases v@.len() - p,
    {
        p = p + 1;
    }
    let ghost w = v@;
    v.insert(p, t);
    assert(v@ == w.insert(p as int, t));
    assert forall|i: int, j: int| 0 <= i < j < v@.len() implies v@[i].id() <= v@[j].id() by {
        if p < w.len() {
            assert(w[p as int].id() > k);
        }
    }
}

impl Hand {
    /// The hand is in order and holds at most fourteen tiles.
    pub open spec fn wf(&self) -> bool {
        sorted(self@) && self@.len() <= 14
    }

    pub fn new(tiles: &[Tile]) -> (h: Hand)
        requires
            tiles@.len() <= 14,
        ensures
            h.wf(),
            h@.to_multiset() == tiles@.to_multiset(),
    {
        let mut v: Vec<Tile> = Vec::new();
        let mut i: usize = 0;
        while i < tiles.len()
            invariant
                i <= tiles@.len(),
                sorted(v@),
                v@.len() == i,
                v@.to_multiset() == tiles@.take(i as int).to_multiset(),
            decreases tiles@.len() - i,
        {
            insert_sorted(&mut v, tiles[i]);
            assert(tiles@.take(i + 1) == tiles@.take(i as int).push(tiles@[i as int]));
            i = i + 1;
        }
        assert(tiles@.take(i as int) == tiles@);
        Hand(v)
    }

    pub fn len(&self) -> (r: usize)
        ensures
            r == self@.len(),
    {
        self.0.len()
    }

    /// The tiles in order.
    pub fn tiles(&self) -> (r: &Vec<Tile>)
        ensures
            r@ == self@,
    {
        &self.0
    }

    /// Removes the tile at position `pos`; `None`, with nothing changed,
    /// when there is no such position.
    pub fn take(&mut self, pos: u8) -> (r: Option<Tile>)
        requires
            old(self).wf(),
        ensures
            final(self).wf(),
            pos < old(self)@.len() ==> r == Some(old(self)@[pos as int]) && final(self)@ == old(
                self,
            )@.remove(pos as int),
            pos >= old(self)@.len() ==> r is None && final(self)@ == old(self)@,
    {
        let p = pos as usize;
        if p < self.0.len() {
            let t = self.0.remove(p);
            assert forall|i: int, j: int|
                0 <= i < j < self@.len() implies self@[i].id() <= self@[j].id() by {
                assert(self@[i] == old(self)@[if i < p { i } else { i + 1 }]);
                assert(self@[j] == old(self)@[if j < p { j } else { j + 1 }]);
            }
            Some(t)
        } else {
            None
        }
    }

    /// Adds `tile`, keeping the hand in order.
    pub fn put(&mut self, tile: Tile)
        requires
            old(self).wf(),
            old(self)@.len() < 14,
        ensures
            final(self).wf(),
            final(self)@.len() == old(self)@.len() + 1,
            final(self)@.to_multiset() == old(self)@.to_multiset().insert(tile),
    {
        insert_sorted(&mut self.0, tile);
    }

    /// The number of tiles of each identity.
    fn counts(&self) -> (c: Vec<u8>)
        requires
            self.wf(),
        ensures
            c@ == tally(self@),
    {
        let mut c: Vec<u8> = Vec::new();
        let mut k: usize = 0;
        while k < 34
            invariant
                k <= 34,
                c@.len() == k,
                forall|j: int| 0 <= j < k ==> c@[j] == 0,
            decreases 34 - k,
        {
            c.push(0);
            k = k + 1;
        }
        let ghost s = self@;
        let mut i: usize = 0;
        while i < self.0.len()
            invariant
                self.wf(),
                s == self@,
                i <= s.len(),
                c@.len() == 34,
                forall|j: int| 0 <= j < 34 ==> c@[j] as nat == count_of(s.take(i as int), j as nat),
            decreases s.len() - i,
        {
            let t = self.0[i];
            let k = t.identity() as usize;
            proof {
                t.lemma_id_bounds();
                lemma_count_le_len(s.take(i as int), k as nat);
                assert forall|j: int| 0 <= j < 34 implies #[trigger] count_of(s.take(i + 1), j as nat) == count_of(
                    s.take(i as int),
                    j as nat,
                ) + (if s[i as int].id() == j {
                    1nat
                } else {
                    0
                }) by {
                    lemma_count_step(s, i as int, j as nat);
                }
            }
            c.set(k, c[k] + 1);
            i = i + 1;
        }
        assert(s.take(i as int) == s);
        assert(c@ =~= tally(s));
        c
    }

    /// The number of identities held at least twice; three or four copies
    /// make one pair.
    pub fn pairs(&self) -> (r: u8)
        requires
            self.wf(),
        ensures
            r as nat == pairs_below(tally(self@), 34),
    {
        let c = self.counts();
        let mut r: u8 = 0;
        let mut k: usize = 0;
        while k < 34
            invariant
                k <= 34,
                c@ == tally(self@),
                r as nat == pairs_below(c@, k as nat),
                r <= k,
            decreases 34 - k,
        {
            if c[k] >= 2 {
                r = r + 1;
            }
            k = k + 1;
        }
        r
    }

    /// The number of distinct terminals and honors held, plus one when one
    /// of them is held twice.
    pub fn orphans(&self) -> (r: u8)
        requires
            self.wf(),
        ensures
            r as nat == orphan_score(self@),
    {
        let c = self.counts();
        let mut r: u8 = 0;
        let mut dup = false;
        let mut k: usize = 0;
        while k < 34
            invariant
                k <= 34,
                c@ == tally(self@),
                r as nat == orphans_below(c@, k as nat),
                dup == orphan_pair_below(c@, k as nat),
                r <= k,
            decreases 34 - k,
        {
            let q = k == 0 || k == 8 || k == 9 || k == 17 || k == 18 || k == 26 || k >= 27;
            if q && c[k] >= 1 {
                r = r + 1;
            }
            if q && c[k] >= 2 {
                dup = true;
            }
            k = k + 1;
        }
        if dup {
            r + 1
        } else {
            r
        }
    }

    /// The distance to a ready hand of four groups and a pair.
    pub fn groups(&self) -> (r: u8)
        requires
            self.wf(),
        ensures
            r as nat == standard_distance(self@),
            r <= 8,
    {
        let mut c = self.counts();
        proof {
            lemma_search_bound(c@, 0, 0, 0, false);
        }
        search_exec(&mut c, 0, 0, 0, false)
    }

    /// The number of tiles needed to reach a ready hand: the least of the
    /// distances to seven pairs, to thirteen orphans and to four groups and
    /// a pair.
    pub fn shanten(&self) -> (r: u8)
        requires
            self.wf(),
            13 <= self@.len(),
        ensures
            r as nat == shanten_of(self@),
            r <= 8,
            seven_pairs_distance(self@) <= 6,
            thirteen_orphans_distance(self@) <= 13,
            standard_distance(self@) <= 8,
    {
        let pairs = self.pairs();
        let seven_pairs: u8 = 6 - min_u8(pairs, 6);
        let thirteen_orphans: u8 = 13 - min_u8(self.orphans(), 13);
        let other = self.groups();
        min_u8(seven_pairs, min_u8(thirteen_orphans, other))
    }

    /// Which group the tiles make, if any: four equal tiles a quad, three
    /// equal tiles a triplet, three consecutive ranks of one suit a run.
    pub fn group_type(tiles: &[Tile]) -> (r: Option<Group>)
        ensures
            r == group_of(tiles@),
    {
        let n = tiles.len();
        if n != 3 && n != 4 {
            return None;
        }
        let a = tiles[0].identity();
        let mut same_value = true;
        let mut same_type = true;
        let mut i: usize = 1;
        while i < n
            invariant
                n == tiles@.len(),
                1 <= i <= n,
                a as nat == tiles@[0].id(),
                same_value == (forall|j: int| 1 <= j < i ==> #[trigger] tiles@[j].id() == tiles@[0].id()),
                same_type == (forall|j: int|
                    1 <= j < i ==> #[trigger] tiles@[j].family() == tiles@[0].family()),
            decreases n - i,
        {
            if tiles[i].identity() != a {
                same_value = false;
            }
            if !Tile::same_type(tiles[i], tiles[0]) {
                same_type = false;
            }
            i = i + 1;
        }
        if n == 4 {
            if same_value {
                Some(Group::Kan)
            } else {
                None
            }
        } else if same_value {
            Some(Group::Pon)
        } else {
            let b = tiles[1].identity();
            let c = tiles[2].identity();
            proof {
                tiles@[0].lemma_id_bounds();
                tiles@[1].lemma_id_bounds();
                tiles@[2].lemma_id_bounds();
            }
            if same_type && a < 27 && b == a + 1 && c == b + 1 {
                Some(Group::Chi)
            } else {
                None
            }
        }
    }
}

pub proof fn lemma_count_update(s: Seq<Tile>, i: int, t: Tile, k: nat)
    requires
        0 <= i < s.len(),
        t.id() == s[i].id(),
    ensures
        count_of(s.update(i, t), k) == count_of(s, k),
    decreases s.len(),
{
    let u = s.update(i, t);
    if i == s.len() - 1 {
        assert(u.drop_last() =~= s.drop_last());
    } else {
        assert(u.drop_last() =~= s.drop_last().update(i, t));
        lemma_count_update(s.drop_last(), i, t, k);
    }
}

pub proof fn lemma_count_remove(s: Seq<Tile>, m: int, k: nat)
    requires
        0 <= m < s.len(),
    ensures
        count_of(s, k) == count_of(s.remove(m), k) + (if s[m].id() == k {
            1nat
        } else {
            0
        }),
    decreases s.len(),
{
    if m < s.len() - 1 {
        assert(s.remove(m).drop_last() =~= s.drop_last().remove(m));
        lemma_count_remove(s.drop_last(), m, k);
    } else {
        assert(s.remove(m) =~= s.drop_last());
    }
}

/// Sequences that hold the same tiles hold as many of each identity.
pub proof fn lemma_count_multiset(a: Seq<Tile>, b: Seq<Tile>, k: nat)
    requires
        a.to_multiset() == b.to_multiset(),
    ensures
        count_of(a, k) == count_of(b, k),
    decreases a.len(),
{
    if a.len() > 0 {
        let x = a.last();
        assert(a =~= a.drop_last().push(x));
        assert(a.to_multiset().count(x) > 0);
        assert(b.to_multiset().contains(x));
        let m = choose|m: int| 0 <= m < b.len() && b[m] == x;
        assert(a.drop_last().to_multiset() =~= a.to_multiset().remove(x));
        assert(b.remove(m).to_multiset() == b.to_multiset().remove(x));
        lemma_count_multiset(a.drop_last(), b.remove(m), k);
        lemma_count_remove(b, m, k);
    } else {
        assert(b.to_multiset().len() == 0);
    }
}

/// A tile and any tile of the same identity, a bonus five and a plain five of
/// the same suit among them, are interchangeable: putting one in the place
/// of the other changes no count, no distance and no group.
pub proof fn lemma_same_identity_interchangeable(s: Seq<Tile>, i: int, t: Tile)
    requires
        0 <= i < s.len(),
        t.id() == s[i].id(),
    ensures
        t.eq_spec(&s[i]),
        tally(s.update(i, t)) == tally(s),
        pairs_below(tally(s.update(i, t)), 34) == pairs_below(tally(s), 34),
        orphan_score(s.update(i, t)) == orphan_score(s),
        standard_distance(s.update(i, t)) == standard_distance(s),
        shanten_of(s.update(i, t)) == shanten_of(s),
        group_of(s.update(i, t)) == group_of(s),
        sorted(s) ==> sorted(s.update(i, t)),
{
    assert forall|k: int| 0 <= k < 34 implies #[trigger] tally(s.update(i, t))[k] == tally(s)[k] by {
        lemma_count_update(s, i, t, k as nat);
    }
    assert(tally(s.update(i, t)) =~= tally(s));
    t.lemma_id_bounds();
    s[i].lemma_id_bounds();
}

/// Taking a tile out of a hand and putting a tile of the same identity back
/// gives a hand with as many tiles of each identity as before; putting back
/// the very tile gives the same tiles.
pub proof fn lemma_take_then_put(s: Seq<Tile>, i: int, t: Tile, after: Seq<Tile>)
    requires
        0 <= i < s.len(),
        t.id() == s[i].id(),
        after.to_multiset() == s.remove(i).to_multiset().insert(t),
    ensures
        tally(after) == tally(s),
        t =~= s[i] ==> after.to_multiset() == s.to_multiset(),
{
    let u = s.update(i, t);
    assert(u.to_multiset() == s.to_multiset().remove(s[i]).insert(t));
    assert(s.remove(i).to_multiset() == s.to_multiset().remove(s[i]));
    assert forall|k: int| 0 <= k < 34 implies #[trigger] tally(after)[k] == tally(s)[k] by {
        lemma_count_multiset(after, u, k as nat);
        lemma_count_update(s, i, t, k as nat);
    }
    assert(tally(after) =~= tally(s));
    if t =~= s[i] {
        assert(s.to_multiset().contains(s[i]));
        assert(after.to_multiset() =~= s.to_multiset());
    }
}

} // verus!
