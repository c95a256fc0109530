use vstd::prelude::*;

verus! {

#[derive(Debug, Clone, Copy, PartialEq, Eq, Structural, PartialOrd, Ord, Hash)]
pub enum Rank {
    One,
    Two,
    Three,
    Four,
    Five,
    Six,
    Seven,
    Eight,
    Nine,
}

impl Rank {
    /// Position of the value in its ordering, from zero.
    pub open spec fn index(self) -> nat {
        match self {
            Rank::One => 0,
            Rank::Two => 1,
            Rank::Three => 2,
            Rank::Four => 3,
            Rank::Five => 4,
            Rank::Six => 5,
            Rank::Seven => 6,
            Rank::Eight => 7,
            Rank::Nine => 8,
        }
    }

    pub open spec fn from_index(k: nat) -> Rank {
        if k == 0 {
            Rank::One
        } else if k == 1 {
            Rank::Two
        } else if k == 2 {
            Rank::Three
        } else if k == 3 {
            Rank::Four
        } else if k == 4 {
            Rank::Five
        } else if k == 5 {
            Rank::Six
        } else if k == 6 {
            Rank::Seven
        } else if k == 7 {
            Rank::Eight
        } else {
            Rank::Nine
        }
    }

    pub fn ordinal(&self) -> (r: u8)
        ensures
            r as nat == self.index(),
    {
        match self {
            Rank::One => 0,
            Rank::Two => 1,
            Rank::Three => 2,
            Rank::Four => 3,
            Rank::Five => 4,
            Rank::Six => 5,
            Rank::Seven => 6,
            Rank::Eight => 7,
            Rank::Nine => 8,
        }
    }

    /// The value's name in words.
    pub open spec fn word(self) -> Seq<char> {
        match self {
            Rank::One => "one"@,
            Rank::Two => "two"@,
            Rank::Three => "three"@,
            Rank::Four => "four"@,
            Rank::Five => "five"@,
            Rank::Six => "six"@,
            Rank::Seven => "seven"@,
            Rank::Eight => "eight"@,
            Rank::Nine => "nine"@,
        }
    }

    pub fn name(&self) -> (r: &'static str)
        ensures
            r@ == self.word(),
    {
        match self {
            Rank::One => "one",
            Rank::Two => "two",
            Rank::Three => "three",
            Rank::Four => "four",
            Rank::Five => "five",
            Rank::Six => "six",
            Rank::Seven => "seven",
            Rank::Eight => "eight",
            Rank::Nine => "nine",
        }
    }

    pub fn of_index(k: u8) -> (r: Rank)
        requires
            k < 9,
        ensures
            r == Self::from_index(k as nat),
            r.index() == k,
    {
        match k {
            0 => Rank::One,
            1 => Rank::Two,
            2 => Rank::Three,
            3 => Rank::Four,
            4 => Rank::Five,
            5 => Rank::Six,
            6 => Rank::Seven,
            7 => Rank::Eight,
            _ => Rank::Nine,
        }
    }
}

#[derive(Debug, Clone, Copy, PartialEq, Eq, Structural, PartialOrd, Ord, Hash)]
pub enum Direction {
    East,
    South,
    West,
    North,
}

impl Direction {
    /// Position of the value in its ordering, from zero.
    pub open spec fn index(self) -> nat {
        match self {
            Direction::East => 0,
            Direction::South => 1,
            Direction::West => 2,
            Direction::North => 3,
        }
    }

    pub open spec fn from_index(k: nat) -> Direction {
        if k == 0 {
            Direction::East
        } else if k == 1 {
            Direction::South
        } else if k == 2 {
            Direction::West
        } else {
            Direction::North
        }
    }

    pub fn ordinal(&self) -> (r: u8)
        ensures
            r as nat == self.index(),
    {
        match self {
            Direction::East => 0,
            Direction::South => 1,
            Direction::West => 2,
            Direction::North => 3,
        }
    }

    /// The value's name in words.
    pub open spec fn word(self) -> Seq<char> {
        match self {
            Direction::East => "east"@,
            Direction::South => "south"@,
            Direction::West => "west"@,
            Direction::North => "north"@,
        }
    }

    pub fn name(&self) -> (r: &'static str)
        ensures
            r@ == self.word(),
    {
        match self {
            Direction::East => "east",
            Direction::South => "south",
            Direction::West => "west",
            Direction::North => "north",
        }
    }

    pub fn of_index(k: u8) -> (r: Direction)
        requires
            k < 4,
        ensures
            r == Self::from_index(k as nat),
            r.index() == k,
    {
        match k {
            0 => Direction::East,
            1 => Direction::South,
            2 => Direction::West,
            _ => Direction::North,
        }
    }
}

#[derive(Debug, Clone, Copy, PartialEq, Eq, Structural, PartialOrd, Ord, Hash)]
pub enum Color {
    White,
    Green,
    Red,
}

impl Color {
    /// Position of the value in its ordering, from zero.
    pub open spec fn index(self) -> nat {
        match self {
            Color::White => 0,
            Color::Green => 1,
            Color::Red => 2,
        }
    }

    pub open spec fn from_index(k: nat) -> Color {
        if k == 0 {
            Color::White
        } else if k == 1 {
            Color::Green
        } else {
            Color::Red
        }
    }

    pub fn ordinal(&self) -> (r: u8)
        ensures
            r as nat == self.index(),
    {
        match self {
            Color::White => 0,
            Color::Green => 1,
            Color::Red => 2,
        }
    }

    /// The value's name in words.
    pub open spec fn word(self) -> Seq<char> {
        match self {
            Color::White => "white"@,
            Color::Green => "green"@,
            Color::Red => "red"@,
        }
    }

    pub fn name(&self) -> (r: &'static str)
        ensures
            r@ == self.word(),
    {
        match self {
            Color::White => "white",
            Color::Green => "green",
            Color::Red => "red",
        }
    }

    pub fn of_index(k: u8) -> (r: Color)
        requires
            k < 3,
        ensures
            r == Self::from_index(k as nat),
            r.index() == k,
    {
        match k {
            0 => Color::White,
            1 => Color::Green,
            _ => Color::Red,
        }
    }
}

/// The face printed on a tile; `Red` marks the bonus copy of a five.
#[derive(Debug, Clone, Copy, PartialEq, Eq, Structural, PartialOrd, Ord, Hash)]
pub enum Icon {
    Plain(char),
    Red(char),
}

/// The glyph of the tile identity `k` (see `Tile::id`).
pub open spec fn glyph(k: nat) -> char {
        if k == 0 {
            '\u{1F019}'
        } else if k == 1 {
            '\u{1F01A}'
        } else if k == 2 {
            '\u{1F01B}'
        } else if k == 3 {
            '\u{1F01C}'
        } else if k == 4 {
            '\u{1F01D}'
        } else if k == 5 {
            '\u{1F01E}'
        } else if k == 6 {
            '\u{1F01F}'
        } else if k == 7 {
            '\u{1F020}'
        } else if k == 8 {
            '\u{1F021}'
        } else if k == 9 {
            '\u{1F010}'
        } else if k == 10 {
            '\u{1F011}'
        } else if k == 11 {
            '\u{1F012}'
        } else if k == 12 {
            '\u{1F013}'
        } else if k == 13 {
            '\u{1F014}'
        } else if k == 14 {
            '\u{1F015}'
        } else if k == 15 {
            '\u{1F016}'
        } else if k == 16 {
            '\u{1F017}'
        } else if k == 17 {
            '\u{1F018}'
        } else if k == 18 {
            '\u{1F007}'
        } else if k == 19 {
            '\u{1F008}'
        } else if k == 20 {
            '\u{1F009}'
        } else if k == 21 {
            '\u{1F00A}'
        } else if k == 22 {
            '\u{1F00B}'
        } else if k == 23 {
            '\u{1F00C}'
        } else if k == 24 {
            '\u{1F00D}'
        } else if k == 25 {
            '\u{1F00E}'
        } else if k == 26 {
            '\u{1F00F}'
        } else if k == 27 {
            '\u{1F000}'
        } else if k == 28 {
            '\u{1F001}'
        } else if k == 29 {
            '\u{1F002}'
        } else if k == 30 {
            '\u{1F003}'
        } else if k == 31 {
            '\u{1F006}'
        } else if k == 32 {
            '\u{1F005}'
        } else if k == 33 {
            '\u{1F004}'
        } else {
            ' '
        }
}

pub fn glyph_of(k: u8) -> (c: char)
    requires
        k < 34,
    ensures
        c == glyph(k as nat),
{
    match k {
        0 => '\u{1F019}',
        1 => '\u{1F01A}',
        2 => '\u{1F01B}',
        3 => '\u{1F01C}',
        4 => '\u{1F01D}',
        5 => '\u{1F01E}',
        6 => '\u{1F01F}',
        7 => '\u{1F020}',
        8 => '\u{1F021}',
        9 => '\u{1F010}',
        10 => '\u{1F011}',
        11 => '\u{1F012}',
        12 => '\u{1F013}',
        13 => '\u{1F014}',
        14 => '\u{1F015}',
        15 => '\u{1F016}',
        16 => '\u{1F017}',
        17 => '\u{1F018}',
        18 => '\u{1F007}',
        19 => '\u{1F008}',
        20 => '\u{1F009}',
        21 => '\u{1F00A}',
        22 => '\u{1F00B}',
        23 => '\u{1F00C}',
        24 => '\u{1F00D}',
        25 => '\u{1F00E}',
        26 => '\u{1F00F}',
        27 => '\u{1F000}',
        28 => '\u{1F001}',
        29 => '\u{1F002}',
        30 => '\u{1F003}',
        31 => '\u{1F006}',
        32 => '\u{1F005}',
        33 => '\u{1F004}',
        _ => ' ',
    }
}

/// A physical tile: a family with its rank, direction or color, and a face.
/// Two tiles are equal when they have the same identity; the face is cosmetic.
#[derive(Debug, Clone, Copy)]
pub enum Tile {
    Pin(Rank, Icon),
    Sou(Rank, Icon),
    Wan(Rank, Icon),
    Wind(Direction, Icon),
    Dragon(Color, Icon),
}

/// Identities 4, 13 and 22 are the fives of the three suits.
pub open spec fn is_suited_five(k: nat) -> bool {
    k == 4 || k == 13 || k == 22
}

impl Tile {
    /// The identity of a tile, one of 34: the nine ranks of pins, sous and
    /// wans, then the four winds, then the three dragons.
    pub open spec fn id(self) -> nat {
        match self {
            Tile::Pin(r, _) => r.index(),
            Tile::Sou(r, _) => 9 + r.index(),
            Tile::Wan(r, _) => 18 + r.index(),
            Tile::Wind(d, _) => 27 + d.index(),
            Tile::Dragon(c, _) => 31 + c.index(),
        }
    }

    /// The family: 0, 1 and 2 for the suits, 3 for winds, 4 for dragons.
    pub open spec fn family(self) -> nat {
        match self {
            Tile::Pin(..) => 0,
            Tile::Sou(..) => 1,
            Tile::Wan(..) => 2,
            Tile::Wind(..) => 3,
            Tile::Dragon(..) => 4,
        }
    }

    pub open spec fn face(self) -> Icon {
        match self {
            Tile::Pin(_, i) => i,
            Tile::Sou(_, i) => i,
            Tile::Wan(_, i) => i,
            Tile::Wind(_, i) => i,
            Tile::Dragon(_, i) => i,
        }
    }

    pub open spec fn is_bonus(self) -> bool {
        self.face() is Red
    }

    /// The tile of identity `k`, with the bonus face when `bonus` holds.
    pub open spec fn make(k: nat, bonus: bool) -> Tile {
        let icon = if bonus { Icon::Red(glyph(k)) } else { Icon::Plain(glyph(k)) };
        if k < 9 {
            Tile::Pin(Rank::from_index(k), icon)
        } else if k < 18 {
            Tile::Sou(Rank::from_index((k - 9) as nat), icon)
        } else if k < 27 {
            Tile::Wan(Rank::from_index((k - 18) as nat), icon)
        } else if k < 31 {
            Tile::Wind(Direction::from_index((k - 27) as nat), icon)
        } else {
            Tile::Dragon(Color::from_index((k - 31) as nat), icon)
        }
    }

    pub proof fn lemma_id_bounds(self)
        ensures
            self.id() < 34,
            self.family() == (if self.id() < 9 {
                0nat
            } else if self.id() < 18 {
                1
            } else if self.id() < 27 {
                2
            } else if self.id() < 31 {
                3
            } else {
                4
            }),
    {
    }

    pub proof fn lemma_make(k: nat, bonus: bool)
        requires
            k < 34,
        ensures
            Tile::make(k, bonus).id() == k,
            Tile::make(k, bonus).is_bonus() == bonus,
    {
    }

    pub fn identity(&self) -> (r: u8)
        ensures
            r as nat == self.id(),
    {
        match self {
            Tile::Pin(r, _) => r.ordinal(),
            Tile::Sou(r, _) => 9 + r.ordinal(),
            Tile::Wan(r, _) => 18 + r.ordinal(),
            Tile::Wind(d, _) => 27 + d.ordinal(),
            Tile::Dragon(c, _) => 31 + c.ordinal(),
        }
    }

    pub fn icon(&self) -> (r: Icon)
        ensures
            r == self.face(),
    {
        match self {
            Tile::Pin(_, i) => *i,
            Tile::Sou(_, i) => *i,
            Tile::Wan(_, i) => *i,
            Tile::Wind(_, i) => *i,
            Tile::Dragon(_, i) => *i,
        }
    }

    /// Whether two tiles belong to the same family, whatever their ranks.
    pub fn same_type(a: Tile, b: Tile) -> (r: bool)
        ensures
            r == (a.family() == b.family()),
    {
        match (a, b) {
            (Tile::Pin(..), Tile::Pin(..)) => true,
            (Tile::Sou(..), Tile::Sou(..)) => true,
            (Tile::Wan(..), Tile::Wan(..)) => true,
            (Tile::Wind(..), Tile::Wind(..)) => true,
            (Tile::Dragon(..), Tile::Dragon(..)) => true,
            _ => false,
        }
    }

    /// Builds the tile of identity `k`, with the bonus face when `bonus` holds.
    pub fn from_identity(k: u8, bonus: bool) -> (t: Tile)
        requires
            k < 34,
        ensures
            t == Tile::make(k as nat, bonus),
    {
        let g = glyph_of(k);
        let icon = if bonus { Icon::Red(g) } else { Icon::Plain(g) };
        if k < 9 {
            Tile::Pin(Rank::of_index(k), icon)
        } else if k < 18 {
            Tile::Sou(Rank::of_index(k - 9), icon)
        } else if k < 27 {
            Tile::Wan(Rank::of_index(k - 18), icon)
        } else if k < 31 {
            Tile::Wind(Direction::of_index(k - 27), icon)
        } else {
            Tile::Dragon(Color::of_index(k - 31), icon)
        }
    }
}

impl PartialEq for Tile {
    fn eq(&self, other: &Tile) -> (r: bool) {
        self.identity() == other.identity()
    }
}

impl vstd::std_specs::cmp::PartialEqSpecImpl for Tile {
    open spec fn obeys_eq_spec() -> bool {
        true
    }

    open spec fn eq_spec(&self, other: &Tile) -> bool {
        self.id() == other.id()
    }
}

impl Eq for Tile {
}

/// The kind of a complete group: a run, a triplet or a quad.
#[derive(Debug, Clone, Copy, PartialEq, Eq, Structural, PartialOrd, Ord, Hash)]
pub enum Group {
    Chi,
    Pon,
    Kan,
}

} // verus!
