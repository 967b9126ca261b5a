//! Hexagram and horoscope casting: pure arithmetic over entropy bytes.
//!
//! Yarrow-stalk line probabilities from entropy bytes, the King Wen table,
//! trigram-to-emotion mapping, and the zodiac sign of a date.
use vstd::prelude::*;
use vstd::std_specs::hash::DefaultHasherAdditionalSpecFns;

use std::collections::hash_map::DefaultHasher;
use std::hash::Hasher;

use crate::text::{decimal_bytes, push_decimal_bytes};

verus! {

/// King Wen sequence: hexagram number (1-64) of an upper and a lower trigram.
/// Trigram indices: 0=Heaven, 1=Lake, 2=Fire, 3=Thunder, 4=Wind, 5=Water,
/// 6=Mountain, 7=Earth.
pub open spec fn king_wen_spec(upper: usize, lower: usize) -> u8 {
    match upper {
        0 => match lower {
            0 => 1,
            1 => 10,
            2 => 13,
            3 => 25,
            4 => 9,
            5 => 6,
            6 => 33,
            _ => 12,
        },
        1 => match lower {
            0 => 43,
            1 => 58,
            2 => 49,
            3 => 17,
            4 => 28,
            5 => 47,
            6 => 31,
            _ => 45,
        },
        2 => match lower {
            0 => 14,
            1 => 38,
            2 => 30,
            3 => 21,
            4 => 50,
            5 => 64,
            6 => 56,
            _ => 35,
        },
        3 => match lower {
            0 => 34,
            1 => 54,
            2 => 55,
            3 => 51,
            4 => 32,
            5 => 3,
            6 => 62,
            _ => 16,
        },
        4 => match lower {
            0 => 44,
            1 => 61,
            2 => 37,
            3 => 42,
            4 => 57,
            5 => 48,
            6 => 53,
            _ => 20,
        },
        5 => match lower {
            0 => 5,
            1 => 60,
            2 => 63,
            3 => 40,
            4 => 59,
            5 => 29,
            6 => 4,
            _ => 7,
        },
        6 => match lower {
            0 => 26,
            1 => 41,
            2 => 22,
            3 => 27,
            4 => 18,
            5 => 39,
            6 => 52,
            _ => 15,
        },
        _ => match lower {
            0 => 11,
            1 => 19,
            2 => 36,
            3 => 24,
            4 => 46,
            5 => 8,
            6 => 23,
            _ => 2,
        },
    }
}

/// The (upper, lower) trigram pair of each hexagram number.
pub open spec fn king_wen_position(n: u8) -> (usize, usize) {
    match n {
        1 => (0, 0),
        2 => (7, 7),
        3 => (3, 5),
        4 => (5, 6),
        5 => (5, 0),
        6 => (0, 5),
        7 => (5, 7),
        8 => (7, 5),
        9 => (0, 4),
        10 => (0, 1),
        11 => (7, 0),
        12 => (0, 7),
        13 => (0, 2),
        14 => (2, 0),
        15 => (6, 7),
        16 => (3, 7),
        17 => (1, 3),
        18 => (6, 4),
        19 => (7, 1),
        20 => (4, 7),
        21 => (2, 3),
        22 => (6, 2),
        23 => (7, 6),
        24 => (7, 3),
        25 => (0, 3),
        26 => (6, 0),
        27 => (6, 3),
        28 => (1, 4),
        29 => (5, 5),
        30 => (2, 2),
        31 => (1, 6),
        32 => (3, 4),
        33 => (0, 6),
        34 => (3, 0),
        35 => (2, 7),
        36 => (7, 2),
        37 => (4, 2),
        38 => (2, 1),
        39 => (6, 5),
        40 => (5, 3),
        41 => (6, 1),
        42 => (4, 3),
        43 => (1, 0),
        44 => (4, 0),
        45 => (1, 7),
        46 => (7, 4),
        47 => (1, 5),
        48 => (4, 5),
        49 => (1, 2),
        50 => (2, 4),
        51 => (3, 3),
        52 => (6, 6),
        53 => (4, 6),
        54 => (3, 1),
        55 => (3, 2),
        56 => (2, 6),
        57 => (4, 4),
        58 => (1, 1),
        59 => (5, 4),
        60 => (5, 1),
        61 => (4, 1),
        62 => (3, 6),
        63 => (5, 2),
        64 => (2, 5),
        _ => (0, 0),
    }
}

pub fn king_wen(upper: usize, lower: usize) -> (r: u8)
    requires
        upper < 8,
        lower < 8,
    ensures
        r == king_wen_spec(upper, lower),
{
    match upper {
        0 => match lower {
            0 => 1u8,
            1 => 10u8,
            2 => 13u8,
            3 => 25u8,
            4 => 9u8,
            5 => 6u8,
            6 => 33u8,
            _ => 12u8,
        },
        1 => match lower {
            0 => 43u8,
            1 => 58u8,
            2 => 49u8,
            3 => 17u8,
            4 => 28u8,
            5 => 47u8,
            6 => 31u8,
            _ => 45u8,
        },
        2 => match lower {
            0 => 14u8,
            1 => 38u8,
            2 => 30u8,
            3 => 21u8,
            4 => 50u8,
            5 => 64u8,
            6 => 56u8,
            _ => 35u8,
        },
        3 => match lower {
            0 => 34u8,
            1 => 54u8,
            2 => 55u8,
            3 => 51u8,
            4 => 32u8,
            5 => 3u8,
            6 => 62u8,
            _ => 16u8,
        },
        4 => match lower {
            0 => 44u8,
            1 => 61u8,
            2 => 37u8,
            3 => 42u8,
            4 => 57u8,
            5 => 48u8,
            6 => 53u8,
            _ => 20u8,
        },
        5 => match lower {
            0 => 5u8,
            1 => 60u8,
            2 => 63u8,
            3 => 40u8,
            4 => 59u8,
            5 => 29u8,
            6 => 4u8,
            _ => 7u8,
        },
        6 => match lower {
            0 => 26u8,
            1 => 41u8,
            2 => 22u8,
            3 => 27u8,
            4 => 18u8,
            5 => 39u8,
            6 => 52u8,
            _ => 15u8,
        },
        _ => match lower {
            0 => 11u8,
            1 => 19u8,
            2 => 36u8,
            3 => 24u8,
            4 => 46u8,
            5 => 8u8,
            6 => 23u8,
            _ => 2u8,
        },
    }
}

/// Every cell of the King Wen table holds a number from 1 to 64, and each
/// such number stands in exactly one cell: the table is a bijection between
/// trigram pairs and hexagram numbers.
pub proof fn king_wen_is_bijection()
    ensures
        forall|u: usize, l: usize|
            u < 8 && l < 8 ==> 1 <= #[trigger] king_wen_spec(u, l) <= 64
                && king_wen_position(king_wen_spec(u, l)) == (u, l),
        forall|n: u8|
            1 <= n <= 64 ==> {
                let p = #[trigger] king_wen_position(n);
                &&& p.0 < 8
                &&& p.1 < 8
                &&& king_wen_spec(p.0, p.1) == n
            },
{
    assert forall|u: usize, l: usize| u < 8 && l < 8 implies 1 <= #[trigger] king_wen_spec(
        u,
        l,
    ) <= 64 && king_wen_position(king_wen_spec(u, l)) == (u, l) by {
        assert(u == 0 || u == 1 || u == 2 || u == 3 || u == 4 || u == 5 || u == 6 || u == 7);
        assert(l == 0 || l == 1 || l == 2 || l == 3 || l == 4 || l == 5 || l == 6 || l == 7);
    }
}

/// Hexagram names, indexed by number (index 0 is unused).
pub open spec fn hexagram_name_spec(n: u8) -> &'static str {
    match n {
        0 => "",
        1 => "The Creative",
        2 => "The Receptive",
        3 => "Difficulty at the Beginning",
        4 => "Youthful Folly",
        5 => "Waiting",
        6 => "Conflict",
        7 => "The Army",
        8 => "Holding Together",
        9 => "Small Taming",
        10 => "Treading",
        11 => "Peace",
        12 => "Standstill",
        13 => "Fellowship",
        14 => "Great Possession",
        15 => "Modesty",
        16 => "Enthusiasm",
        17 => "Following",
        18 => "Work on the Decayed",
        19 => "Approach",
        20 => "Contemplation",
        21 => "Biting Through",
        22 => "Grace",
        23 => "Splitting Apart",
        24 => "Return",
        25 => "Innocence",
        26 => "Great Taming",
        27 => "Nourishment",
        28 => "Great Preponderance",
        29 => "The Abysmal",
        30 => "The Clinging",
        31 => "Influence",
        32 => "Duration",
        33 => "Retreat",
        34 => "Great Power",
        35 => "Progress",
        36 => "Darkening of the Light",
        37 => "The Family",
        38 => "Opposition",
        39 => "Obstruction",
        40 => "Deliverance",
        41 => "Decrease",
        42 => "Increase",
        43 => "Breakthrough",
        44 => "Coming to Meet",
        45 => "Gathering Together",
        46 => "Pushing Upward",
        47 => "Oppression",
        48 => "The Well",
        49 => "Revolution",
        50 => "The Cauldron",
        51 => "The Arousing",
        52 => "Keeping Still",
        53 => "Development",
        54 => "The Marrying Maiden",
        55 => "Abundance",
        56 => "The Wanderer",
        57 => "The Gentle",
        58 => "The Joyous",
        59 => "Dispersion",
        60 => "Limitation",
        61 => "Inner Truth",
        62 => "Small Preponderance",
        63 => "After Completion",
        _ => "Before Completion",
    }
}

pub fn hexagram_name(n: u8) -> (r: &'static str)
    ensures
        r == hexagram_name_spec(n),
{
    match n {
        0 => "",
        1 => "The Creative",
        2 => "The Receptive",
        3 => "Difficulty at the Beginning",
        4 => "Youthful Folly",
        5 => "Waiting",
        6 => "Conflict",
        7 => "The Army",
        8 => "Holding Together",
        9 => "Small Taming",
        10 => "Treading",
        11 => "Peace",
        12 => "Standstill",
        13 => "Fellowship",
        14 => "Great Possession",
        15 => "Modesty",
        16 => "Enthusiasm",
        17 => "Following",
        18 => "Work on the Decayed",
        19 => "Approach",
        20 => "Contemplation",
        21 => "Biting Through",
        22 => "Grace",
        23 => "Splitting Apart",
        24 => "Return",
        25 => "Innocence",
        26 => "Great Taming",
        27 => "Nourishment",
        28 => "Great Preponderance",
        29 => "The Abysmal",
        30 => "The Clinging",
        31 => "Influence",
        32 => "Duration",
        33 => "Retreat",
        34 => "Great Power",
        35 => "Progress",
        36 => "Darkening of the Light",
        37 => "The Family",
        38 => "Opposition",
        39 => "Obstruction",
        40 => "Deliverance",
        41 => "Decrease",
        42 => "Increase",
        43 => "Breakthrough",
        44 => "Coming to Meet",
        45 => "Gathering Together",
        46 => "Pushing Upward",
        47 => "Oppression",
        48 => "The Well",
        49 => "Revolution",
        50 => "The Cauldron",
        51 => "The Arousing",
        52 => "Keeping Still",
        53 => "Development",
        54 => "The Marrying Maiden",
        55 => "Abundance",
        56 => "The Wanderer",
        57 => "The Gentle",
        58 => "The Joyous",
        59 => "Dispersion",
        60 => "Limitation",
        61 => "Inner Truth",
        62 => "Small Preponderance",
        63 => "After Completion",
        _ => "Before Completion",
    }
}

pub open spec fn trigram_name_spec(i: usize) -> &'static str {
    match i {
        0 => "Heaven",
        1 => "Lake",
        2 => "Fire",
        3 => "Thunder",
        4 => "Wind",
        5 => "Water",
        6 => "Mountain",
        _ => "Earth",
    }
}

pub fn trigram_name(i: usize) -> (r: &'static str)
    ensures
        r == trigram_name_spec(i),
{
    match i {
        0 => "Heaven",
        1 => "Lake",
        2 => "Fire",
        3 => "Thunder",
        4 => "Wind",
        5 => "Water",
        6 => "Mountain",
        _ => "Earth",
    }
}

/// Trigram -> canonical emotion (1:1 mapping).
pub open spec fn trigram_emotion_spec(i: usize) -> &'static str {
    match i {
        0 => "joy",
        1 => "sadness",
        2 => "anger",
        3 => "surprise",
        4 => "interest",
        5 => "fear",
        6 => "boredom",
        _ => "trust",
    }
}

/// Emotion of a trigram index; indices above 7 count as 7.
pub fn trigram_emotion(idx: usize) -> (r: &'static str)
    ensures
        r == trigram_emotion_spec(if idx < 7 { idx } else { 7 }),
{
    match idx {
        0 => "joy",
        1 => "sadness",
        2 => "anger",
        3 => "surprise",
        4 => "interest",
        5 => "fear",
        6 => "boredom",
        _ => "trust",
    }
}

/// Zodiac signs.
#[derive(Debug, Clone, Copy, PartialEq, Eq, Structural)]
pub enum ZodiacSign {
    Aries,
    Taurus,
    Gemini,
    Cancer,
    Leo,
    Virgo,
    Libra,
    Scorpio,
    Sagittarius,
    Capricorn,
    Aquarius,
    Pisces,
}

impl ZodiacSign {
    pub open spec fn name_spec(self) -> &'static str {
        match self {
            ZodiacSign::Aries => "Aries",
            ZodiacSign::Taurus => "Taurus",
            ZodiacSign::Gemini => "Gemini",
            ZodiacSign::Cancer => "Cancer",
            ZodiacSign::Leo => "Leo",
            ZodiacSign::Virgo => "Virgo",
            ZodiacSign::Libra => "Libra",
            ZodiacSign::Scorpio => "Scorpio",
            ZodiacSign::Sagittarius => "Sagittarius",
            ZodiacSign::Capricorn => "Capricorn",
            ZodiacSign::Aquarius => "Aquarius",
            ZodiacSign::Pisces => "Pisces",
        }
    }

    pub fn name(self) -> (r: &'static str)
        ensures
            r == self.name_spec(),
    {
        match self {
            ZodiacSign::Aries => "Aries",
            ZodiacSign::Taurus => "Taurus",
            ZodiacSign::Gemini => "Gemini",
            ZodiacSign::Cancer => "Cancer",
            ZodiacSign::Leo => "Leo",
            ZodiacSign::Virgo => "Virgo",
            ZodiacSign::Libra => "Libra",
            ZodiacSign::Scorpio => "Scorpio",
            ZodiacSign::Sagittarius => "Sagittarius",
            ZodiacSign::Capricorn => "Capricorn",
            ZodiacSign::Aquarius => "Aquarius",
            ZodiacSign::Pisces => "Pisces",
        }
    }
}

#[derive(Debug, Clone, Copy, PartialEq, Eq, Structural)]
pub enum Element {
    Fire,
    Earth,
    Air,
    Water,
}

impl Element {
    pub fn name(self) -> (r: &'static str)
        ensures
            r == (match self {
                Element::Fire => "Fire",
                Element::Earth => "Earth",
                Element::Air => "Air",
                Element::Water => "Water",
            }),
    {
        match self {
            Element::Fire => "Fire",
            Element::Earth => "Earth",
            Element::Air => "Air",
            Element::Water => "Water",
        }
    }
}

#[derive(Debug, Clone, Copy, PartialEq, Eq, Structural)]
pub enum Modality {
    Cardinal,
    Fixed,
    Mutable,
}

impl Modality {
    pub fn name(self) -> (r: &'static str)
        ensures
            r == (match self {
                Modality::Cardinal => "Cardinal",
                Modality::Fixed => "Fixed",
                Modality::Mutable => "Mutable",
            }),
    {
        match self {
            Modality::Cardinal => "Cardinal",
            Modality::Fixed => "Fixed",
            Modality::Mutable => "Mutable",
        }
    }
}

/// Line value cast from one entropy byte with yarrow-stalk probabilities,
/// reading the byte as the fraction `byte / 256`:
/// 6 = Old Yin (below 1/16), 7 = Young Yang (below 6/16),
/// 8 = Young Yin (below 13/16), 9 = Old Yang.
pub open spec fn yarrow_line(byte: u8) -> u8 {
    if byte < 16 {
        6
    } else if byte < 96 {
        7
    } else if byte < 208 {
        8
    } else {
        9
    }
}

pub fn cast_line_yarrow(byte: u8) -> (r: u8)
    ensures
        r == yarrow_line(byte),
{
    if byte < 16 {
        6  // Old Yin    1/16
    } else if byte < 96 {
        7  // Young Yang 5/16
    } else if byte < 208 {
        8  // Young Yin  7/16
    } else {
        9  // Old Yang   3/16
    }
}

/// Stable value of a line: 6,8 -> 0 (yin), 7,9 -> 1 (yang); others count as yin.
pub open spec fn stable_spec(line: u8) -> u8 {
    if line == 7 || line == 9 {
        1
    } else {
        0
    }
}

pub fn stable_value(line: u8) -> (r: u8)
    ensures
        r == stable_spec(line),
{
    match line {
        6 | 8 => 0,
        7 | 9 => 1,
        _ => 0,
    }
}

/// Binary value of three lines read bottom (bit 0) to top.
pub open spec fn line_bits(lines: Seq<u8>) -> nat {
    (stable_spec(lines[0]) + 2 * stable_spec(lines[1]) + 4 * stable_spec(lines[2])) as nat
}

/// King Wen trigram order of a 3-bit value: 7 (all yang) is Heaven (0),
/// down to 0 (all yin), which is Earth (7).
pub open spec fn trigram_spec(lines: Seq<u8>) -> usize {
    (7 - line_bits(lines)) as usize
}

/// Trigram index from three line values (bottom to top).
fn trigram_index(lines: &[u8]) -> (r: usize)
    requires
        lines.len() == 3,
    ensures
        r == trigram_spec(lines@),
        r < 8,
{
    let mut idx: usize = 0;
    let mut i: usize = 0;
    while i < 3
        invariant
            lines.len() == 3,
            i <= 3,
            idx == (if i >= 1 { stable_spec(lines@[0]) as int } else { 0 }) + (if i >= 2 {
                2 * stable_spec(lines@[1])
            } else {
                0
            }) + (if i >= 3 { 4 * stable_spec(lines@[2]) } else { 0 }),
        decreases 3 - i,
    {
        let v = stable_value(lines[i]) as usize;
        if i == 0 {
            idx = idx + v;
        } else if i == 1 {
            idx = idx + 2 * v;
        } else {
            idx = idx + 4 * v;
        }
        i = i + 1;
    }
    // 3-bit binary -> King Wen trigram order
    match idx {
        7 => 0,  // Heaven (all yang)
        6 => 1,  // Lake
        5 => 2,  // Fire
        4 => 3,  // Thunder
        3 => 4,  // Wind
        2 => 5,  // Water
        1 => 6,  // Mountain
        _ => 7,  // Earth (all yin)
    }
}

/// A cast hexagram with all derived data.
#[derive(Debug, Clone)]
pub struct HexagramCast {
    pub number: u8,
    pub name: String,
    pub lines: [u8; 6],
    pub upper_trigram: usize,
    pub lower_trigram: usize,
    pub upper_name: String,
    pub lower_name: String,
}

/// The six lines cast from the first six entropy bytes (bottom to top).
pub open spec fn cast_lines(entropy: Seq<u8>) -> Seq<u8> {
    Seq::new(6, |i: int| yarrow_line(entropy[i]))
}

/// What a cast hexagram holds, given its entropy.
pub open spec fn is_cast_of(h: HexagramCast, entropy: Seq<u8>) -> bool {
    let lines = cast_lines(entropy);
    let lower = trigram_spec(lines.subrange(0, 3));
    let upper = trigram_spec(lines.subrange(3, 6));
    &&& h.lines@ == lines
    &&& h.lower_trigram == lower
    &&& h.upper_trigram == upper
    &&& h.number == king_wen_spec(upper, lower)
    &&& h.name@ == hexagram_name_spec(h.number)@
    &&& h.upper_name@ == trigram_name_spec(upper)@
    &&& h.lower_name@ == trigram_name_spec(lower)@
}

/// Cast a hexagram from 6 entropy bytes.  Lines are cast bottom (0) to top (5).
pub fn cast_hexagram(entropy: &[u8]) -> (r: HexagramCast)
    requires
        entropy.len() >= 6,
    ensures
        is_cast_of(r, entropy@),
        1 <= r.number <= 64,
        r.upper_trigram < 8,
        r.lower_trigram < 8,
{
    let lines: [u8; 6] = [
        cast_line_yarrow(entropy[0]),
        cast_line_yarrow(entropy[1]),
        cast_line_yarrow(entropy[2]),
        cast_line_yarrow(entropy[3]),
        cast_line_yarrow(entropy[4]),
        cast_line_yarrow(entropy[5]),
    ];
    assert(lines@ =~= cast_lines(entropy@));
    let lower_trigram = trigram_index(&lines[0..3]);
    let upper_trigram = trigram_index(&lines[3..6]);
    let number = king_wen(upper_trigram, lower_trigram);
    proof {
        king_wen_is_bijection();
        assert(1 <= king_wen_spec(upper_trigram, lower_trigram) <= 64);
    }
    let name = hexagram_name(number).to_owned();
    HexagramCast {
        number,
        name,
        lines,
        upper_trigram,
        lower_trigram,
        upper_name: trigram_name(upper_trigram).to_owned(),
        lower_name: trigram_name(lower_trigram).to_owned(),
    }
}

/// A horoscope cast.
#[derive(Debug, Clone)]
pub struct HoroscopeCast {
    pub sign: ZodiacSign,
    pub element: Element,
    pub modality: Modality,
    pub sign_name: String,
}

/// Zodiac sign of a month and day; dates outside the table are Capricorn.
pub open spec fn zodiac_sign_spec(month: u32, day: u32) -> ZodiacSign {
    if (month == 3 && 21 <= day <= 31) || (month == 4 && 1 <= day <= 19) {
        ZodiacSign::Aries
    } else if (month == 4 && 20 <= day <= 30) || (month == 5 && 1 <= day <= 20) {
        ZodiacSign::Taurus
    } else if (month == 5 && 21 <= day <= 31) || (month == 6 && 1 <= day <= 20) {
        ZodiacSign::Gemini
    } else if (month == 6 && 21 <= day <= 30) || (month == 7 && 1 <= day <= 22) {
        ZodiacSign::Cancer
    } else if (month == 7 && 23 <= day <= 31) || (month == 8 && 1 <= day <= 22) {
        ZodiacSign::Leo
    } else if (month == 8 && 23 <= day <= 31) || (month == 9 && 1 <= day <= 22) {
        ZodiacSign::Virgo
    } else if (month == 9 && 23 <= day <= 30) || (month == 10 && 1 <= day <= 22) {
        ZodiacSign::Libra
    } else if (month == 10 && 23 <= day <= 31) || (month == 11 && 1 <= day <= 21) {
        ZodiacSign::Scorpio
    } else if (month == 11 && 22 <= day <= 30) || (month == 12 && 1 <= day <= 21) {
        ZodiacSign::Sagittarius
    } else if (month == 12 && 22 <= day <= 31) || (month == 1 && 1 <= day <= 19) {
        ZodiacSign::Capricorn
    } else if (month == 1 && 20 <= day <= 31) || (month == 2 && 1 <= day <= 18) {
        ZodiacSign::Aquarius
    } else if (month == 2 && 19 <= day <= 29) || (month == 3 && 1 <= day <= 20) {
        ZodiacSign::Pisces
    } else {
        ZodiacSign::Capricorn
    }
}

pub open spec fn sign_properties_spec(sign: ZodiacSign) -> (Element, Modality) {
    match sign {
        ZodiacSign::Aries => (Element::Fire, Modality::Cardinal),
        ZodiacSign::Taurus => (Element::Earth, Modality::Fixed),
        ZodiacSign::Gemini => (Element::Air, Modality::Mutable),
        ZodiacSign::Cancer => (Element::Water, Modality::Cardinal),
        ZodiacSign::Leo => (Element::Fire, Modality::Fixed),
        ZodiacSign::Virgo => (Element::Earth, Modality::Mutable),
        ZodiacSign::Libra => (Element::Air, Modality::Cardinal),
        ZodiacSign::Scorpio => (Element::Water, Modality::Fixed),
        ZodiacSign::Sagittarius => (Element::Fire, Modality::Mutable),
        ZodiacSign::Capricorn => (Element::Earth, Modality::Cardinal),
        ZodiacSign::Aquarius => (Element::Air, Modality::Fixed),
        ZodiacSign::Pisces => (Element::Water, Modality::Mutable),
    }
}

fn sign_properties(sign: ZodiacSign) -> (r: (Element, Modality))
    ensures
        r == sign_properties_spec(sign),
{
    match sign {
        ZodiacSign::Aries => (Element::Fire, Modality::Cardinal),
        ZodiacSign::Taurus => (Element::Earth, Modality::Fixed),
        ZodiacSign::Gemini => (Element::Air, Modality::Mutable),
        ZodiacSign::Cancer => (Element::Water, Modality::Cardinal),
        ZodiacSign::Leo => (Element::Fire, Modality::Fixed),
        ZodiacSign::Virgo => (Element::Earth, Modality::Mutable),
        ZodiacSign::Libra => (Element::Air, Modality::Cardinal),
        ZodiacSign::Scorpio => (Element::Water, Modality::Fixed),
        ZodiacSign::Sagittarius => (Element::Fire, Modality::Mutable),
        ZodiacSign::Capricorn => (Element::Earth, Modality::Cardinal),
        ZodiacSign::Aquarius => (Element::Air, Modality::Fixed),
        ZodiacSign::Pisces => (Element::Water, Modality::Mutable),
    }
}

/// What a horoscope cast for a month and day holds.
pub open spec fn is_horoscope_of(h: HoroscopeCast, month: u32, day: u32) -> bool {
    let sign = zodiac_sign_spec(month, day);
    &&& h.sign == sign
    &&& (h.element, h.modality) == sign_properties_spec(sign)
    &&& h.sign_name@ == sign.name_spec()@
}

/// Derive the zodiac sign from month and day.
pub fn zodiac_from_month_day(month: u32, day: u32) -> (r: HoroscopeCast)
    ensures
        is_horoscope_of(r, month, day),
{
    let sign = if (month == 3 && 21 <= day && day <= 31) || (month == 4 && 1 <= day && day <= 19) {
        ZodiacSign::Aries
    } else if (month == 4 && 20 <= day && day <= 30) || (month == 5 && 1 <= day && day <= 20) {
        ZodiacSign::Taurus
    } else if (month == 5 && 21 <= day && day <= 31) || (month == 6 && 1 <= day && day <= 20) {
        ZodiacSign::Gemini
    } else if (month == 6 && 21 <= day && day <= 30) || (month == 7 && 1 <= day && day <= 22) {
        ZodiacSign::Cancer
    } else if (month == 7 && 23 <= day && day <= 31) || (month == 8 && 1 <= day && day <= 22) {
        ZodiacSign::Leo
    } else if (month == 8 && 23 <= day && day <= 31) || (month == 9 && 1 <= day && day <= 22) {
        ZodiacSign::Virgo
    } else if (month == 9 && 23 <= day && day <= 30) || (month == 10 && 1 <= day && day <= 22) {
        ZodiacSign::Libra
    } else if (month == 10 && 23 <= day && day <= 31) || (month == 11 && 1 <= day && day <= 21) {
        ZodiacSign::Scorpio
    } else if (month == 11 && 22 <= day && day <= 30) || (month == 12 && 1 <= day && day <= 21) {
        ZodiacSign::Sagittarius
    } else if (month == 12 && 22 <= day && day <= 31) || (month == 1 && 1 <= day && day <= 19) {
        ZodiacSign::Capricorn
    } else if (month == 1 && 20 <= day && day <= 31) || (month == 2 && 1 <= day && day <= 18) {
        ZodiacSign::Aquarius
    } else if (month == 2 && 19 <= day && day <= 29) || (month == 3 && 1 <= day && day <= 20) {
        ZodiacSign::Pisces
    } else {
        ZodiacSign::Capricorn  // fallback for leap year edge cases
    };
    let (element, modality) = sign_properties(sign);
    HoroscopeCast { sign, element, modality, sign_name: sign.name().to_owned() }
}

/// Civil date (year, month, day) of a day count since 1970-01-01, by
/// Howard Hinnant's days-to-civil algorithm.
pub open spec fn civil_from_days(days: int) -> (int, int, int) {
    let z = days + 719468;
    let era = z / 146097;
    let doe = z - era * 146097;
    let yoe = (doe - doe / 1460 + doe / 36524 - doe / 146096) / 365;
    let y = yoe + era * 400;
    let doy = doe - (365 * yoe + yoe / 4 - yoe / 100);
    let mp = (5 * doy + 2) / 153;
    let d = doy - (153 * mp + 2) / 5 + 1;
    let m = if mp < 10 { mp + 3 } else { mp - 9 };
    let y = if m <= 2 { y + 1 } else { y };
    (y, m, d)
}

/// Largest day count accepted by `days_to_ymd` (its signed arithmetic bound).
pub open spec fn max_days() -> int {
    0x7fff_ffff_ffff_ffff - 719468
}

/// The civil date (year, month, day) of a count of days since the Unix
/// epoch; the year is at least 1970.
#[verifier::spinoff_prover]
#[verifier::rlimit(40)]
pub fn civil_date(days: u64) -> (r: (i64, u64, u64))
    requires
        days <= max_days(),
    ensures
        r.0 == civil_from_days(days as int).0,
        r.1 == civil_from_days(days as int).1,
        r.2 == civil_from_days(days as int).2,
        r.0 >= 1970,
        1 <= r.1 <= 12,
        1 <= r.2 <= 31,
{
    let z: i64 = days as i64 + 719468;
    let era: i64 = z / 146097;
    assert(era >= 4);
    let doe: u64 = (z - era * 146097) as u64;
    assert(0 <= doe <= 146096);
    let yoe: u64 = (doe - doe / 1460 + doe / 36524 - doe / 146096) / 365;
    assert(yoe <= 399);
    let y: i64 = yoe as i64 + era * 400;
    let doy: u64 = doe - (365 * yoe + yoe / 4 - yoe / 100);
    assert(doy <= 365) by (nonlinear_arith)
        requires
            doe <= 146096,
            yoe == (doe - doe / 1460 + doe / 36524 - doe / 146096) / 365,
            doy == doe - (365 * yoe + yoe / 4 - yoe / 100),
    ;
    let mp: u64 = (5 * doy + 2) / 153;
    let d: u64 = doy - (153 * mp + 2) / 5 + 1;
    assert(1 <= d <= 31) by (nonlinear_arith)
        requires
            doy <= 365,
            mp == (5 * doy + 2) / 153,
            d == doy - (153 * mp + 2) / 5 + 1,
    ;
    let m: u64 = if mp < 10 { mp + 3 } else { mp - 9 };
    let y: i64 = if m <= 2 { y + 1 } else { y };
    (y, m, d)
}


/// Convert days since the Unix epoch to (year, month, day).
/// The year is kept to its low 32 bits (an `as u32` cast).
pub fn days_to_ymd(days: u64) -> (r: (u32, u32, u32))
    requires
        days <= max_days(),
    ensures
        r.0 == civil_from_days(days as int).0 as u32,
        r.1 == civil_from_days(days as int).1,
        r.2 == civil_from_days(days as int).2,
        1 <= r.1 <= 12,
        1 <= r.2 <= 31,
{
    let (y, m, d) = civil_date(days);
    (y as u32, m as u32, d as u32)
}

/// Derive the zodiac sign of a Unix epoch timestamp (UTC).
pub fn zodiac_from_epoch(epoch: u64) -> (r: HoroscopeCast)
    ensures
        is_horoscope_of(
            r,
            civil_from_days(epoch as int / 86400).1 as u32,
            civil_from_days(epoch as int / 86400).2 as u32,
        ),
{
    let secs_per_day: u64 = 86400;
    let days_since_epoch = epoch / secs_per_day;
    let (_, month, day) = days_to_ymd(days_since_epoch);
    zodiac_from_month_day(month, day)
}

/// The text hashed into an identity seed: `number:l0,l1,...,l5:timestamp`,
/// as ASCII bytes.
pub open spec fn seed_input(hex_number: u8, lines: Seq<u8>, timestamp: u64) -> Seq<u8> {
    decimal_bytes(hex_number as nat) + seq![58u8] + joined_lines(lines) + seq![58u8]
        + decimal_bytes(timestamp as nat)
}

/// Line values in decimal, separated by commas.
pub open spec fn joined_lines(lines: Seq<u8>) -> Seq<u8>
    decreases lines.len(),
{
    if lines.len() == 0 {
        Seq::empty()
    } else if lines.len() == 1 {
        decimal_bytes(lines[0] as nat)
    } else {
        joined_lines(lines.drop_last()) + seq![44u8] + decimal_bytes(lines.last() as nat)
    }
}

/// Deterministic identity seed: the low 32 bits of the std `DefaultHasher`
/// digest of the seed text, hashed as a `str` is (its bytes, then 0xff).
pub fn identity_seed(hex_number: u8, lines: &[u8; 6], timestamp: u64) -> (r: u32)
    ensures
        r == DefaultHasher::spec_finish(
            seq![seed_input(hex_number, lines@, timestamp), seq![0xffu8]],
        ) as u32,
{
    let mut input: Vec<u8> = Vec::new();
    push_decimal_bytes(&mut input, hex_number as u64);
    input.push(58u8);
    let mut i: usize = 0;
    while i < 6
        invariant
            i <= 6,
            input@ == decimal_bytes(hex_number as nat) + seq![58u8] + joined_lines(
                lines@.subrange(0, i as int),
            ),
        decreases 6 - i,
    {
        let ghost before = input@;
        if i > 0 {
            input.push(44u8);
        }
        push_decimal_bytes(&mut input, lines[i] as u64);
        proof {
            let pre = lines@.subrange(0, i as int);
            let post = lines@.subrange(0, i + 1);
            assert(post.drop_last() =~= pre);
            if i == 0 {
                assert(joined_lines(pre) =~= Seq::<u8>::empty());
            }
        }
        assert(input@ =~= decimal_bytes(hex_number as nat) + seq![58u8] + joined_lines(
            lines@.subrange(0, i + 1),
        ));
        i = i + 1;
    }
    assert(lines@.subrange(0, 6) =~= lines@);
    input.push(58u8);
    push_decimal_bytes(&mut input, timestamp);
    assert(input@ =~= seed_input(hex_number, lines@, timestamp));
    let mut hasher = DefaultHasher::new();
    hasher.write(input.as_slice());
    let term: [u8; 1] = [0xffu8];
    hasher.write(&term);
    assert(term@ =~= seq![0xffu8]);
    assert(hasher@ =~= seq![seed_input(hex_number, lines@, timestamp), seq![0xffu8]]);
    let h = hasher.finish();
    h as u32
}

/// The sign that follows `s` around the zodiac, Pisces wrapping to Aries.
pub open spec fn next_sign(s: ZodiacSign) -> ZodiacSign {
    match s {
        ZodiacSign::Aries => ZodiacSign::Taurus,
        ZodiacSign::Taurus => ZodiacSign::Gemini,
        ZodiacSign::Gemini => ZodiacSign::Cancer,
        ZodiacSign::Cancer => ZodiacSign::Leo,
        ZodiacSign::Leo => ZodiacSign::Virgo,
        ZodiacSign::Virgo => ZodiacSign::Libra,
        ZodiacSign::Libra => ZodiacSign::Scorpio,
        ZodiacSign::Scorpio => ZodiacSign::Sagittarius,
        ZodiacSign::Sagittarius => ZodiacSign::Capricorn,
        ZodiacSign::Capricorn => ZodiacSign::Aquarius,
        ZodiacSign::Aquarius => ZodiacSign::Pisces,
        ZodiacSign::Pisces => ZodiacSign::Aries,
    }
}

/// The elements and modalities of the signs follow the zodiac's
/// triplicities and quadruplicities: signs four places apart (a trine)
/// share their element, signs three places apart share their modality,
/// consecutive signs differ in both, Aries opens the cycle as cardinal fire
/// followed by fixed earth and mutable air, and no two signs share both an
/// element and a modality — so each element holds exactly three signs, one
/// of each modality (the water signs are Cancer, Scorpio and Pisces).
pub proof fn signs_follow_triplicities(s: ZodiacSign, t: ZodiacSign)
    ensures
        sign_properties_spec(s).0 == sign_properties_spec(next_sign(next_sign(next_sign(next_sign(s))))).0,
        sign_properties_spec(s).1 == sign_properties_spec(next_sign(next_sign(next_sign(s)))).1,
        sign_properties_spec(s).0 != sign_properties_spec(next_sign(s)).0,
        sign_properties_spec(s).1 != sign_properties_spec(next_sign(s)).1,
        sign_properties_spec(ZodiacSign::Aries) == (Element::Fire, Modality::Cardinal),
        sign_properties_spec(ZodiacSign::Taurus) == (Element::Earth, Modality::Fixed),
        sign_properties_spec(ZodiacSign::Gemini) == (Element::Air, Modality::Mutable),
        sign_properties_spec(s) == sign_properties_spec(t) ==> s == t,
        sign_properties_spec(s).0 == Element::Water <==> (s == ZodiacSign::Cancer || s == ZodiacSign::Scorpio || s
            == ZodiacSign::Pisces),
{
}

/// Days in a month of the calendar the zodiac table reads (February with
/// its leap day).
pub open spec fn month_days(month: u32) -> u32 {
    if month == 2 {
        29
    } else if month == 4 || month == 6 || month == 9 || month == 11 {
        30
    } else {
        31
    }
}

/// The calendar day after `(month, day)`, December 31 wrapping to January 1.
pub open spec fn next_day(month: u32, day: u32) -> (u32, u32) {
    if day < month_days(month) {
        (month, (day + 1) as u32)
    } else if month == 12 {
        (1, 1)
    } else {
        ((month + 1) as u32, 1)
    }
}

/// The signs run through the year in zodiac order without gaps: the day
/// after any date of the calendar has the same sign or the next one, Aries
/// begins on March 21, and each sign's first day follows the previous
/// sign's last.
pub proof fn signs_follow_the_calendar(month: u32, day: u32)
    requires
        1 <= month <= 12,
        1 <= day <= month_days(month),
    ensures
        ({
            let (m2, d2) = next_day(month, day);
            let s = zodiac_sign_spec(month, day);
            let t = zodiac_sign_spec(m2, d2);
            t == s || t == next_sign(s)
        }),
        zodiac_sign_spec(3, 21) == ZodiacSign::Aries,
        zodiac_sign_spec(3, 20) == ZodiacSign::Pisces,
{
}

} // verus!
