use crate::hand::{count_of, lemma_count_step, Hand};
use crate::tile::{is_suited_five, Tile};
use rand::seq::SliceRandom;
use vstd::prelude::*;

verus! {

broadcast use vstd::seq_lib::group_to_multiset_ensures;

/// The number of tiles in a full pool.
pub const POOL_SIZE: usize = 136;

/// The number of tiles in a dealt hand.
pub const HAND_SIZE: usize = 13;

/// The tile at position `j` of a new pool: the 34 identities in order, four
/// times over, with the bonus face on the fives of the first round.
pub open spec fn pool_tile(j: int) -> Tile {
    let k = (j % 34) as nat;
    Tile::make(k, j < 34 && is_suited_five(k))
}

/// Relies on rand's `SliceRandom::shuffle`, which reorders the slice by swaps
/// drawn from the thread-local generator and keeps every element.
#[verifier::external_body]
fn shuffle_tiles(v: &mut Vec<Tile>)
    ensures
        final(v)@.len() == old(v)@.len(),
        final(v)@.to_multiset() == old(v)@.to_multiset(),
{
    let mut rng = rand::thread_rng();
    v.shuffle(&mut rng);
}

/// The shared pool of tiles that hands are dealt from.
pub struct TileSet(Vec<Tile>);

impl View for TileSet {
    type V = Seq<Tile>;

    closed spec fn view(&self) -> Seq<Tile> {
        self.0@
    }
}

impl TileSet {
    /// A pool never holds more than a full set.
    pub open spec fn wf(&self) -> bool {
        self@.len() <= POOL_SIZE
    }

    /// The full set of 136 tiles, in order of identity four times over.
    pub fn new() -> (r: TileSet)
        ensures
            r.wf(),
            r@.len() == POOL_SIZE,
            forall|j: int| 0 <= j < POOL_SIZE ==> #[trigger] r@[j] == pool_tile(j),
    {
        let mut v: Vec<Tile> = Vec::new();
        let mut j: usize = 0;
        while j < POOL_SIZE
            invariant
                j <= POOL_SIZE,
                v@.len() == j,
                forall|m: int| 0 <= m < j ==> #[trigger] v@[m] == pool_tile(m),
            decreases POOL_SIZE - j,
        {
            let k = (j % 34) as u8;
            let bonus = j < 34 && (k == 4 || k == 13 || k == 22);
            v.push(Tile::from_identity(k, bonus));
            j = j + 1;
        }
        TileSet(v)
    }

    /// Puts the tiles in a random order; the tiles themselves stay.
    pub fn shuffle(&mut self)
        requires
            old(self).wf(),
        ensures
            final(self).wf(),
            final(self)@.len() == old(self)@.len(),
            final(self)@.to_multiset() == old(self)@.to_multiset(),
    {
        shuffle_tiles(&mut self.0);
    }

    /// Deals a hand from the end of the pool; `None`, with the pool
    /// unchanged, when fewer than 13 tiles are left.
    pub fn take_hand(&mut self) -> (r: Option<Hand>)
        requires
            old(self).wf(),
        ensures
            final(self).wf(),
            old(self)@.len() >= HAND_SIZE <==> r is Some,
            r is None ==> final(self)@ == old(self)@,
            r matches Some(h) ==> {
                let cut = old(self)@.len() - HAND_SIZE;
                &&& final(self)@ == old(self)@.subrange(0, cut)
                &&& h.wf()
                &&& h@.len() == HAND_SIZE
                &&& h@.to_multiset() == old(self)@.subrange(cut, old(self)@.len() as int).to_multiset()
            },
    {
        if self.0.len() >= HAND_SIZE {
            let cut = self.0.len() - HAND_SIZE;
            let taken = self.0.split_off(cut);
            let h = Hand::new(taken.as_slice());
            proof {
                assert(taken@.len() == HAND_SIZE);
                assert(h@.to_multiset().len() == h@.len());
                assert(taken@.to_multiset().len() == taken@.len());
            }
            Some(h)
        } else {
            None
        }
    }

    /// Draws the last tile; `None` when the pool is empty.
    pub fn take(&mut self) -> (r: Option<Tile>)
        requires
            old(self).wf(),
        ensures
            final(self).wf(),
            old(self)@.len() == 0 ==> r is None && final(self)@ == old(self)@,
            old(self)@.len() > 0 ==> r == Some(old(self)@.last()) && final(self)@ == old(
                self,
            )@.drop_last(),
    {
        self.0.pop()
    }

    pub fn size(&self) -> (r: u8)
        requires
            self.wf(),
        ensures
            r as nat == self@.len(),
    {
        self.0.len() as u8
    }

    /// The tiles in their current order.
    pub fn tiles(&self) -> (r: &Vec<Tile>)
        ensures
            r@ == self@,
    {
        &self.0
    }
}

/// How many tiles of `s` have identity `k` and the bonus face.
pub open spec fn bonus_count(s: Seq<Tile>, k: nat) -> nat
    decreases s.len(),
{
    if s.len() == 0 {
        0
    } else {
        bonus_count(s.drop_last(), k) + (if s.last().id() == k && s.last().is_bonus() {
            1nat
        } else {
            0
        })
    }
}

proof fn lemma_div_step(j: int)
    requires
        0 <= j,
    ensures
        j % 34 == 33 ==> (j + 1) / 34 == j / 34 + 1 && (j + 1) % 34 == 0,
        j % 34 != 33 ==> (j + 1) / 34 == j / 34 && (j + 1) % 34 == j % 34 + 1,
{
    vstd::arithmetic::div_mod::lemma_fundamental_div_mod(j, 34);
    vstd::arithmetic::div_mod::lemma_fundamental_div_mod(j + 1, 34);
    vstd::arithmetic::div_mod::lemma_mod_bound(j, 34);
    vstd::arithmetic::div_mod::lemma_mod_bound(j + 1, 34);
    if j % 34 == 33 {
        vstd::arithmetic::div_mod::lemma_fundamental_div_mod_converse(j + 1, 34, j / 34 + 1, 0);
    } else {
        vstd::arithmetic::div_mod::lemma_fundamental_div_mod_converse(
            j + 1,
            34,
            j / 34,
            j % 34 + 1,
        );
    }
}

proof fn lemma_pool_prefix(s: Seq<Tile>, j: int, k: nat)
    requires
        s.len() == POOL_SIZE,
        forall|m: int| 0 <= m < POOL_SIZE ==> #[trigger] s[m] == pool_tile(m),
        0 <= j <= POOL_SIZE,
        k < 34,
    ensures
        count_of(s.take(j), k) == j / 34 + (if j % 34 > k {
            1nat
        } else {
            0
        }),
        bonus_count(s.take(j), k) == (if is_suited_five(k) && j > k {
            1nat
        } else {
            0
        }),
    decreases j,
{
    if j > 0 {
        let m = j - 1;
        lemma_pool_prefix(s, m, k);
        lemma_count_step(s, m, k);
        assert(s.take(m + 1).drop_last() =~= s.take(m));
        lemma_div_step(m);
        Tile::lemma_make((m % 34) as nat, m < 34 && is_suited_five((m % 34) as nat));
        assert(s[m] == pool_tile(m));
        if m < 34 {
            vstd::arithmetic::div_mod::lemma_small_mod(m as nat, 34);
        }
    }
}

/// A new pool holds four tiles of each of the 34 identities, and the bonus
/// face on exactly one five of each suit.
pub proof fn lemma_new_pool_contents(p: TileSet)
    requires
        p@.len() == POOL_SIZE,
        forall|j: int| 0 <= j < POOL_SIZE ==> #[trigger] p@[j] == pool_tile(j),
    ensures
        forall|k: nat| k < 34 ==> #[trigger] count_of(p@, k) == 4,
        forall|k: nat| k < 34 ==> #[trigger] bonus_count(p@, k) == (if is_suited_five(k) {
            1nat
        } else {
            0
        }),
{
    assert(p@.take(POOL_SIZE as int) =~= p@);
    assert forall|k: nat| k < 34 implies #[trigger] count_of(p@, k) == 4 by {
        lemma_pool_prefix(p@, POOL_SIZE as int, k);
    }
    assert forall|k: nat| k < 34 implies #[trigger] bonus_count(p@, k) == (if is_suited_five(k) {
        1nat
    } else {
        0
    }) by {
        lemma_pool_prefix(p@, POOL_SIZE as int, k);
    }
}

} // verus!
