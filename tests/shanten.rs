use shanten::{Color, Direction, Group, Hand, Icon, Rank, Tile, TileSet};

fn pin(r: u8) -> Tile {
    Tile::from_identity(r - 1, false)
}

fn sou(r: u8) -> Tile {
    Tile::from_identity(9 + r - 1, false)
}

fn wan(r: u8) -> Tile {
    Tile::from_identity(18 + r - 1, false)
}

fn honors() -> Vec<Tile> {
    (27..34).map(|k| Tile::from_identity(k, false)).collect()
}

fn ids(tiles: &[Tile]) -> Vec<u8> {
    tiles.iter().map(|t| t.identity()).collect()
}

#[test]
fn seven_pairs_hand_is_ready() {
    let tiles = vec![pin(1), pin(1), pin(2), pin(2), pin(3), pin(3), pin(4), pin(4), pin(5), pin(5), pin(6), pin(6), pin(7)];
    let hand = Hand::new(&tiles);
    assert_eq!(hand.pairs(), 6);
    assert_eq!(hand.shanten(), 0);
}

#[test]
fn quad_makes_one_pair() {
    let tiles = vec![pin(1), pin(1), pin(1), pin(1), sou(2), sou(2), sou(2), wan(5), wan(5), wan(7), wan(9), sou(9), pin(9)];
    let hand = Hand::new(&tiles);
    assert_eq!(hand.pairs(), 3);
}

fn orphan_tiles() -> Vec<Tile> {
    let mut v = vec![pin(1), pin(9), sou(1), sou(9), wan(1), wan(9)];
    v.extend(honors());
    v
}

#[test]
fn thirteen_distinct_orphans() {
    let hand = Hand::new(&orphan_tiles());
    assert_eq!(hand.orphans(), 13);
    assert_eq!(hand.shanten(), 0);
}

#[test]
fn thirteen_orphans_with_duplicate() {
    let mut v = orphan_tiles();
    v[12] = pin(1);
    let hand = Hand::new(&v);
    assert_eq!(hand.orphans(), 13);
    assert_eq!(hand.shanten(), 0);
}

#[test]
fn twelve_orphans_and_a_simple() {
    let mut v = orphan_tiles();
    v[12] = pin(5);
    let hand = Hand::new(&v);
    assert_eq!(hand.orphans(), 12);
}

#[test]
fn bonus_five_equals_plain_five() {
    let red = Tile::from_identity(4, true);
    let plain = Tile::Pin(Rank::Five, Icon::Plain('\u{1F01D}'));
    assert!(red == plain);
    assert_eq!(red.icon(), Icon::Red('\u{1F01D}'));
    assert!(red != Tile::from_identity(13, true));
    assert_eq!(Hand::group_type(&[pin(4), red, pin(6)]), Some(Group::Chi));
    assert_eq!(Hand::group_type(&[plain, red, plain]), Some(Group::Pon));
    let a = Hand::new(&[pin(1), pin(2), pin(3), pin(4), red, sou(7), sou(8), wan(2), wan(2), wan(5), Tile::Wind(Direction::East, Icon::Plain('\u{1F000}')), sou(1), sou(1)]);
    let b = Hand::new(&[pin(1), pin(2), pin(3), pin(4), plain, sou(7), sou(8), wan(2), wan(2), wan(5), Tile::Wind(Direction::East, Icon::Plain('\u{1F000}')), sou(1), sou(1)]);
    assert_eq!(a.shanten(), b.shanten());
    assert_eq!(a.groups(), b.groups());
    assert_eq!(a.pairs(), b.pairs());
}

#[test]
fn same_type_ignores_rank() {
    assert!(Tile::same_type(pin(1), pin(9)));
    assert!(!Tile::same_type(pin(1), sou(1)));
    let white = Tile::Dragon(Color::White, Icon::Plain('\u{1F006}'));
    let red = Tile::Dragon(Color::Red, Icon::Plain('\u{1F004}'));
    assert!(Tile::same_type(white, red));
    assert!(white != red);
}

#[test]
fn take_then_put_restores_hand() {
    let tiles = vec![pin(1), pin(2), pin(3), sou(4), sou(5), sou(6), wan(7), wan(8), wan(9), pin(5), pin(5), sou(9), wan(1)];
    let mut hand = Hand::new(&tiles);
    let before = ids(hand.tiles());
    let t = hand.take(5).unwrap();
    assert_eq!(hand.len(), 12);
    hand.put(t);
    assert_eq!(ids(hand.tiles()), before);
}

#[test]
fn take_out_of_range_changes_nothing() {
    let tiles = vec![pin(1), pin(2), pin(3), sou(4), sou(5), sou(6), wan(7), wan(8), wan(9), pin(5), pin(5), sou(9), wan(1)];
    let mut hand = Hand::new(&tiles);
    let before = ids(hand.tiles());
    assert!(hand.take(13).is_none());
    assert_eq!(ids(hand.tiles()), before);
}

#[test]
fn hand_is_kept_in_order() {
    let hand = Hand::new(&[wan(9), pin(2), sou(5), pin(1)]);
    assert_eq!(ids(hand.tiles()), vec![0, 1, 13, 26]);
}

#[test]
fn complete_hand_is_zero() {
    let tiles = vec![pin(1), pin(2), pin(3), pin(4), pin(5), pin(6), sou(7), sou(8), sou(9), wan(2), wan(2), wan(2), sou(5), sou(5)];
    let hand = Hand::new(&tiles);
    assert_eq!(hand.groups(), 0);
    assert_eq!(hand.shanten(), 0);
}

#[test]
fn scattered_hand() {
    let mut tiles = vec![pin(1), pin(4), pin(7), sou(1), sou(4), sou(7), wan(1), wan(4), wan(7)];
    tiles.extend(honors().into_iter().take(4));
    let hand = Hand::new(&tiles);
    assert_eq!(hand.groups(), 8);
    assert_eq!(hand.pairs(), 0);
    assert_eq!(hand.orphans(), 7);
    assert_eq!(hand.shanten(), 6);
}

#[test]
fn one_group_short() {
    let tiles = vec![pin(1), pin(2), pin(3), pin(4), pin(5), pin(6), pin(7), pin(8), pin(9), sou(1), sou(1), sou(5), sou(9)];
    let hand = Hand::new(&tiles);
    assert_eq!(hand.groups(), 1);
    assert_eq!(hand.shanten(), 1);
}

#[test]
fn partial_groups_are_capped() {
    let tiles = vec![pin(1), pin(2), pin(4), pin(5), pin(7), pin(8), sou(1), sou(2), sou(4), sou(5), sou(7), sou(8), wan(1)];
    let hand = Hand::new(&tiles);
    assert_eq!(hand.groups(), 4);
    assert_eq!(hand.shanten(), 4);
}

#[test]
fn quad_counts_as_group() {
    let tiles = vec![pin(1), pin(1), pin(1), pin(1), sou(2), sou(2), sou(2), sou(3), sou(3), sou(3), sou(4), sou(4), sou(4)];
    let hand = Hand::new(&tiles);
    assert_eq!(hand.groups(), 0);
}

#[test]
fn group_types() {
    assert_eq!(Hand::group_type(&[sou(3), sou(3), sou(3), sou(3)]), Some(Group::Kan));
    assert_eq!(Hand::group_type(&[sou(3), sou(3), sou(3)]), Some(Group::Pon));
    assert_eq!(Hand::group_type(&[wan(7), wan(8), wan(9)]), Some(Group::Chi));
    assert_eq!(Hand::group_type(&[wan(7), wan(8), sou(9)]), None);
    assert_eq!(Hand::group_type(&[wan(6), wan(8), wan(9)]), None);
    assert_eq!(Hand::group_type(&[sou(3), sou(3), sou(3), sou(4)]), None);
    assert_eq!(Hand::group_type(&[sou(3), sou(3)]), None);
    assert_eq!(Hand::group_type(&[]), None);
    let h = honors();
    assert_eq!(Hand::group_type(&[h[0], h[1], h[2]]), None);
    assert_eq!(Hand::group_type(&[h[4], h[4], h[4]]), Some(Group::Pon));
}

fn pool_census(tiles: &[Tile]) -> (Vec<u32>, Vec<u8>) {
    let mut counts = vec![0u32; 34];
    let mut bonus = Vec::new();
    for t in tiles {
        counts[t.identity() as usize] += 1;
        if let Icon::Red(_) = t.icon() {
            bonus.push(t.identity());
        }
    }
    bonus.sort();
    (counts, bonus)
}

#[test]
fn new_pool_has_full_set() {
    let pool = TileSet::new();
    assert_eq!(pool.size(), 136);
    let (counts, bonus) = pool_census(pool.tiles());
    assert!(counts.iter().all(|&c| c == 4));
    assert_eq!(bonus, vec![4, 13, 22]);
}

#[test]
fn shuffle_keeps_tiles() {
    let mut pool = TileSet::new();
    let before = pool_census(pool.tiles());
    let order: Vec<u8> = ids(pool.tiles());
    pool.shuffle();
    assert_eq!(pool.size(), 136);
    assert_eq!(pool_census(pool.tiles()), before);
    assert_ne!(ids(pool.tiles()), order);
}

#[test]
fn deal_until_exhausted() {
    let mut pool = TileSet::new();
    pool.shuffle();
    let hand = pool.take_hand().unwrap();
    assert_eq!(hand.len(), 13);
    assert_eq!(pool.size(), 123);
    assert!(hand.shanten() <= 8);
    let mut dealt = 1;
    while pool.size() >= 13 {
        assert!(pool.take_hand().is_some());
        dealt += 1;
    }
    assert_eq!(dealt, 10);
    assert_eq!(pool.size(), 6);
    assert!(pool.take_hand().is_none());
    assert_eq!(pool.size(), 6);
}

#[test]
fn draw_single_tiles() {
    let mut pool = TileSet::new();
    let last = pool.tiles()[135];
    let t = pool.take().unwrap();
    assert!(t == last);
    assert_eq!(pool.size(), 135);
    while pool.take().is_some() {}
    assert_eq!(pool.size(), 0);
    assert!(pool.take().is_none());
}

#[test]
fn names_in_words() {
    assert_eq!(Rank::One.name(), "one");
    assert_eq!(Rank::Nine.name(), "nine");
    assert_eq!(Direction::West.name(), "west");
    assert_eq!(Color::Green.name(), "green");
}

#[test]
fn glyphs_of_identities() {
    assert_eq!(Tile::from_identity(0, false).icon(), Icon::Plain('\u{1F019}'));
    assert_eq!(Tile::from_identity(13, true).icon(), Icon::Red('\u{1F014}'));
    assert_eq!(Tile::from_identity(18, false).icon(), Icon::Plain('\u{1F007}'));
    assert_eq!(Tile::from_identity(27, false).icon(), Icon::Plain('\u{1F000}'));
    assert_eq!(Tile::from_identity(33, false).icon(), Icon::Plain('\u{1F004}'));
    assert_eq!(Tile::from_identity(31, false).identity(), 31);
    assert_eq!(Rank::of_index(4), Rank::Five);
    assert_eq!(Rank::Five.ordinal(), 4);
}
