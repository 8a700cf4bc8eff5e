//! Notes, tones, instruments and keys.

use crate::analysis::Event;
use crate::error::{decimal, u8_to_string};
use crate::types::{Panning, Volume};
use vstd::prelude::*;
use vstd::std_specs::convert::FromSpecImpl;
use vstd::string::StringExecFns;

verus! {

// instrument
//
// ++++++++++++============++++++++++++============++++++++++++============

/// Built-in minecraft note block instruments.
#[derive(Debug, Clone, Copy, PartialEq, Eq, Structural, PartialOrd, Ord, Hash)]
pub enum Instrument {
    Harp,
    DoubleBass,
    BassDrum,
    SnareDrum,
    Click,
    Guitar,
    Flute,
    Bell,
    Chime,
    Xylophone,
    IronXylophone,
    CowBell,
    Didgeridoo,
    Bit,
    Banjo,
    Pling,
    Trumpet,
    TrumpetExposed,
    TrumpetWeathered,
    TrumpetOxidized,
    /// Mob head instruments. Reserved by rsnbs: not part of the NBS file
    /// format, used for schematic rendering of mob head note blocks. They
    /// are not encodable in files and fall back to Harp when saved.
    Imitate(ImitateInstrument),
    /// Custom instruments, identified by their slot index in the song's
    /// custom instrument list (the NBS instrument byte minus the song's
    /// first custom instrument index).
    Custom(u8),
}

/// Mob head sounds, reserved by rsnbs for schematic rendering.
/// These are not NBS instruments and cannot be saved to files.
#[derive(Debug, Clone, Copy, PartialEq, Eq, Structural, PartialOrd, Ord, Hash)]
pub enum ImitateInstrument {
    Creeper,
    Skeleton,
    Dragon,
    WitherSkeleton,
    Piglin,
    Zombie,
    CustomHead,
}

impl Default for Instrument {
    fn default() -> (r: Self)
        ensures
            r == Instrument::Harp,
    {
        Instrument::Harp
    }
}

/// The vanilla instrument at an NBS instrument index.
pub open spec fn spec_vanilla_at(index: u8) -> Option<Instrument> {
    match index {
        0u8 => Some(Instrument::Harp),
        1u8 => Some(Instrument::DoubleBass),
        2u8 => Some(Instrument::BassDrum),
        3u8 => Some(Instrument::SnareDrum),
        4u8 => Some(Instrument::Click),
        5u8 => Some(Instrument::Guitar),
        6u8 => Some(Instrument::Flute),
        7u8 => Some(Instrument::Bell),
        8u8 => Some(Instrument::Chime),
        9u8 => Some(Instrument::Xylophone),
        10u8 => Some(Instrument::IronXylophone),
        11u8 => Some(Instrument::CowBell),
        12u8 => Some(Instrument::Didgeridoo),
        13u8 => Some(Instrument::Bit),
        14u8 => Some(Instrument::Banjo),
        15u8 => Some(Instrument::Pling),
        16u8 => Some(Instrument::Trumpet),
        17u8 => Some(Instrument::TrumpetExposed),
        18u8 => Some(Instrument::TrumpetWeathered),
        19u8 => Some(Instrument::TrumpetOxidized),
        _ => None,
    }
}

/// The vanilla index and the vanilla instrument at an index are inverse.
pub proof fn lemma_vanilla_at(index: u8, i: Instrument)
    ensures
        spec_vanilla_at(index) == Some(i) <==> spec_vanilla_index(i) == Some(index),
{
}

/// The NBS instrument index of a vanilla instrument: its position in the
/// NBS serialization order (the four v6 trumpets occupy 16-19).
pub open spec fn spec_vanilla_index(i: Instrument) -> Option<u8> {
    match i {
        Instrument::Harp => Some(0u8),
        Instrument::DoubleBass => Some(1u8),
        Instrument::BassDrum => Some(2u8),
        Instrument::SnareDrum => Some(3u8),
        Instrument::Click => Some(4u8),
        Instrument::Guitar => Some(5u8),
        Instrument::Flute => Some(6u8),
        Instrument::Bell => Some(7u8),
        Instrument::Chime => Some(8u8),
        Instrument::Xylophone => Some(9u8),
        Instrument::IronXylophone => Some(10u8),
        Instrument::CowBell => Some(11u8),
        Instrument::Didgeridoo => Some(12u8),
        Instrument::Bit => Some(13u8),
        Instrument::Banjo => Some(14u8),
        Instrument::Pling => Some(15u8),
        Instrument::Trumpet => Some(16u8),
        Instrument::TrumpetExposed => Some(17u8),
        Instrument::TrumpetWeathered => Some(18u8),
        Instrument::TrumpetOxidized => Some(19u8),
        _ => None,
    }
}

/// The canonical OpenNBS name and sound file of a vanilla instrument.
pub open spec fn spec_nbs_definition(i: Instrument) -> Option<(Seq<char>, Seq<char>)> {
    match i {
        Instrument::Harp => Some(("Harp"@, "harp.ogg"@)),
        Instrument::DoubleBass => Some(("Double Bass"@, "dbass.ogg"@)),
        Instrument::BassDrum => Some(("Bass Drum"@, "bdrum.ogg"@)),
        Instrument::SnareDrum => Some(("Snare Drum"@, "sdrum.ogg"@)),
        Instrument::Click => Some(("Click"@, "click.ogg"@)),
        Instrument::Guitar => Some(("Guitar"@, "guitar.ogg"@)),
        Instrument::Flute => Some(("Flute"@, "flute.ogg"@)),
        Instrument::Bell => Some(("Bell"@, "bell.ogg"@)),
        Instrument::Chime => Some(("Chime"@, "icechime.ogg"@)),
        Instrument::Xylophone => Some(("Xylophone"@, "xylobone.ogg"@)),
        Instrument::IronXylophone => Some(("Iron Xylophone"@, "iron_xylophone.ogg"@)),
        Instrument::CowBell => Some(("Cow Bell"@, "cow_bell.ogg"@)),
        Instrument::Didgeridoo => Some(("Didgeridoo"@, "didgeridoo.ogg"@)),
        Instrument::Bit => Some(("Bit"@, "bit.ogg"@)),
        Instrument::Banjo => Some(("Banjo"@, "banjo.ogg"@)),
        Instrument::Pling => Some(("Pling"@, "pling.ogg"@)),
        Instrument::Trumpet => Some(("Trumpet"@, "trumpet.ogg"@)),
        Instrument::TrumpetExposed => Some(("Exposed Trumpet"@, "trumpet_exposed.ogg"@)),
        Instrument::TrumpetWeathered => Some(("Weathered Trumpet"@, "trumpet_weathered.ogg"@)),
        Instrument::TrumpetOxidized => Some(("Oxidized Trumpet"@, "trumpet_oxidized.ogg"@)),
        _ => None,
    }
}

/// The OpenNBS instruments by index: their names, in the order the format
/// numbers them.
pub open spec fn nbs_instrument_names() -> Seq<Seq<char>> {
    seq![
        "Harp"@, "Double Bass"@, "Bass Drum"@, "Snare Drum"@, "Click"@, "Guitar"@, "Flute"@, "Bell"@,
        "Chime"@, "Xylophone"@, "Iron Xylophone"@, "Cow Bell"@, "Didgeridoo"@, "Bit"@, "Banjo"@, "Pling"@,
        "Trumpet"@, "Exposed Trumpet"@, "Weathered Trumpet"@, "Oxidized Trumpet"@,
    ]
}

/// The note block sounds by OpenNBS index, in the order the format numbers
/// them.
pub open spec fn nbs_index_sounds() -> Seq<Seq<char>> {
    seq![
        "harp"@, "bass"@, "basedrum"@, "snare"@, "hat"@, "guitar"@, "flute"@, "bell"@, "chime"@, "xylophone"@,
        "iron_xylophone"@, "cow_bell"@, "didgeridoo"@, "bit"@, "banjo"@, "pling"@, "trumpet"@, "trumpet_exposed"@,
        "trumpet_weathered"@, "trumpet_oxidized"@,
    ]
}

/// Law: the indices below 20 are the vanilla instruments, numbered as
/// OpenNBS numbers them: the instrument at an index has the OpenNBS name
/// and plays the note block sound listed at that index, and an
/// instrument's index leads back to it.
#[verifier::spinoff_prover]
pub proof fn lemma_vanilla_numbering(index: u8)
    ensures
        spec_vanilla_at(index) is Some <==> index < 20,
        index < 20 ==> (spec_nbs_definition(spec_vanilla_at(index).unwrap()) is Some
            && spec_nbs_definition(spec_vanilla_at(index).unwrap()).unwrap().0 == nbs_instrument_names()[index as int]),
        index < 20 ==> spec_note_property(spec_vanilla_at(index).unwrap()) == nbs_index_sounds()[index as int],
        forall|i: Instrument| #[trigger] spec_vanilla_index(i) == Some(index) ==> spec_vanilla_at(index) == Some(i),
{
    assert(nbs_instrument_names().len() == 20);
    assert(nbs_index_sounds().len() == 20);
    if index < 20 {
        assert(index == 0 || index == 1 || index == 2 || index == 3 || index == 4 || index == 5 || index == 6
            || index == 7 || index == 8 || index == 9 || index == 10 || index == 11 || index == 12 || index == 13
            || index == 14 || index == 15 || index == 16 || index == 17 || index == 18 || index == 19);
    }
}

/// Distinct vanilla instruments have distinct sound files.
pub proof fn lemma_definitions_distinct(i: Instrument, j: Instrument)
    requires
        spec_nbs_definition(i) is Some,
        spec_nbs_definition(j) is Some,
        i != j,
    ensures
        spec_nbs_definition(i).unwrap().1 != spec_nbs_definition(j).unwrap().1,
{
    reveal_strlit("harp.ogg");
    reveal_strlit("dbass.ogg");
    reveal_strlit("bdrum.ogg");
    reveal_strlit("sdrum.ogg");
    reveal_strlit("click.ogg");
    reveal_strlit("guitar.ogg");
    reveal_strlit("flute.ogg");
    reveal_strlit("bell.ogg");
    reveal_strlit("icechime.ogg");
    reveal_strlit("xylobone.ogg");
    reveal_strlit("iron_xylophone.ogg");
    reveal_strlit("cow_bell.ogg");
    reveal_strlit("didgeridoo.ogg");
    reveal_strlit("bit.ogg");
    reveal_strlit("banjo.ogg");
    reveal_strlit("pling.ogg");
    reveal_strlit("trumpet.ogg");
    reveal_strlit("trumpet_exposed.ogg");
    reveal_strlit("trumpet_weathered.ogg");
    reveal_strlit("trumpet_oxidized.ogg");
    let a = spec_nbs_definition(i).unwrap().1;
    let b = spec_nbs_definition(j).unwrap().1;
    assert(a.len() != b.len() || a[0] != b[0] || a[1] != b[1]);
}

/// The definitions are short texts of ASCII characters.
pub proof fn lemma_definition_text(i: Instrument)
    ensures
        spec_nbs_definition(i) matches Some(d) ==> {
            &&& d.0.len() <= 32
            &&& d.1.len() <= 32
            &&& forall|k: int| 0 <= k < d.0.len() ==> (#[trigger] d.0[k] as u32) < 128
            &&& forall|k: int| 0 <= k < d.1.len() ==> (#[trigger] d.1[k] as u32) < 128
        },
{
    match i {
        Instrument::Harp => {
            reveal_strlit("Harp");
            reveal_strlit("harp.ogg");
        },
        Instrument::DoubleBass => {
            reveal_strlit("Double Bass");
            reveal_strlit("dbass.ogg");
        },
        Instrument::BassDrum => {
            reveal_strlit("Bass Drum");
            reveal_strlit("bdrum.ogg");
        },
        Instrument::SnareDrum => {
            reveal_strlit("Snare Drum");
            reveal_strlit("sdrum.ogg");
        },
        Instrument::Click => {
            reveal_strlit("Click");
            reveal_strlit("click.ogg");
        },
        Instrument::Guitar => {
            reveal_strlit("Guitar");
            reveal_strlit("guitar.ogg");
        },
        Instrument::Flute => {
            reveal_strlit("Flute");
            reveal_strlit("flute.ogg");
        },
        Instrument::Bell => {
            reveal_strlit("Bell");
            reveal_strlit("bell.ogg");
        },
        Instrument::Chime => {
            reveal_strlit("Chime");
            reveal_strlit("icechime.ogg");
        },
        Instrument::Xylophone => {
            reveal_strlit("Xylophone");
            reveal_strlit("xylobone.ogg");
        },
        Instrument::IronXylophone => {
            reveal_strlit("Iron Xylophone");
            reveal_strlit("iron_xylophone.ogg");
        },
        Instrument::CowBell => {
            reveal_strlit("Cow Bell");
            reveal_strlit("cow_bell.ogg");
        },
        Instrument::Didgeridoo => {
            reveal_strlit("Didgeridoo");
            reveal_strlit("didgeridoo.ogg");
        },
        Instrument::Bit => {
            reveal_strlit("Bit");
            reveal_strlit("bit.ogg");
        },
        Instrument::Banjo => {
            reveal_strlit("Banjo");
            reveal_strlit("banjo.ogg");
        },
        Instrument::Pling => {
            reveal_strlit("Pling");
            reveal_strlit("pling.ogg");
        },
        Instrument::Trumpet => {
            reveal_strlit("Trumpet");
            reveal_strlit("trumpet.ogg");
        },
        Instrument::TrumpetExposed => {
            reveal_strlit("Exposed Trumpet");
            reveal_strlit("trumpet_exposed.ogg");
        },
        Instrument::TrumpetWeathered => {
            reveal_strlit("Weathered Trumpet");
            reveal_strlit("trumpet_weathered.ogg");
        },
        Instrument::TrumpetOxidized => {
            reveal_strlit("Oxidized Trumpet");
            reveal_strlit("trumpet_oxidized.ogg");
        },
        _ => {},
    }
}

/// The note block `instrument` property of a mob head.
pub open spec fn spec_imitate_property(i: ImitateInstrument) -> Seq<char> {
    match i {
        ImitateInstrument::Creeper => "creeper"@,
        ImitateInstrument::Skeleton => "skeleton"@,
        ImitateInstrument::Dragon => "ender_dragon"@,
        ImitateInstrument::WitherSkeleton => "wither_skeleton"@,
        ImitateInstrument::Piglin => "piglin"@,
        ImitateInstrument::Zombie => "zombie"@,
        ImitateInstrument::CustomHead => "custom_head"@,
    }
}

/// The block of a mob head.
pub open spec fn spec_imitate_block(i: ImitateInstrument) -> Seq<char> {
    match i {
        ImitateInstrument::Creeper => "minecraft:creeper_head"@,
        ImitateInstrument::Skeleton => "minecraft:skeleton_skull"@,
        ImitateInstrument::Dragon => "minecraft:dragon_head"@,
        ImitateInstrument::WitherSkeleton => "minecraft:wither_skeleton_skull"@,
        ImitateInstrument::Piglin => "minecraft:piglin_head"@,
        ImitateInstrument::Zombie => "minecraft:zombie_head"@,
        ImitateInstrument::CustomHead => "minecraft:player_head"@,
    }
}

/// The note block `instrument` property of an instrument.
pub open spec fn spec_note_property(i: Instrument) -> Seq<char> {
    match i {
        Instrument::Harp => "harp"@,
        Instrument::DoubleBass => "bass"@,
        Instrument::BassDrum => "basedrum"@,
        Instrument::SnareDrum => "snare"@,
        Instrument::Click => "hat"@,
        Instrument::Guitar => "guitar"@,
        Instrument::Flute => "flute"@,
        Instrument::Bell => "bell"@,
        Instrument::Chime => "chime"@,
        Instrument::Xylophone => "xylophone"@,
        Instrument::IronXylophone => "iron_xylophone"@,
        Instrument::CowBell => "cow_bell"@,
        Instrument::Didgeridoo => "didgeridoo"@,
        Instrument::Bit => "bit"@,
        Instrument::Banjo => "banjo"@,
        Instrument::Pling => "pling"@,
        Instrument::Trumpet => "trumpet"@,
        Instrument::TrumpetExposed => "trumpet_exposed"@,
        Instrument::TrumpetWeathered => "trumpet_weathered"@,
        Instrument::TrumpetOxidized => "trumpet_oxidized"@,
        Instrument::Imitate(m) => spec_imitate_property(m),
        Instrument::Custom(_) => "custom"@,
    }
}

/// The block placed under (or, for mob heads, on) the note block.
pub open spec fn spec_block_resource(i: Instrument) -> Option<Seq<char>> {
    match i {
        Instrument::Harp => Some("minecraft:dirt"@),
        Instrument::DoubleBass => Some("minecraft:oak_planks"@),
        Instrument::BassDrum => Some("minecraft:stone"@),
        Instrument::SnareDrum => Some("minecraft:sand"@),
        Instrument::Click => Some("minecraft:glass"@),
        Instrument::Guitar => Some("minecraft:white_wool"@),
        Instrument::Flute => Some("minecraft:clay"@),
        Instrument::Bell => Some("minecraft:gold_block"@),
        Instrument::Chime => Some("minecraft:packed_ice"@),
        Instrument::Xylophone => Some("minecraft:bone_block"@),
        Instrument::IronXylophone => Some("minecraft:iron_block"@),
        Instrument::CowBell => Some("minecraft:soul_sand"@),
        Instrument::Didgeridoo => Some("minecraft:pumpkin"@),
        Instrument::Bit => Some("minecraft:emerald_block"@),
        Instrument::Banjo => Some("minecraft:hay_block"@),
        Instrument::Pling => Some("minecraft:glowstone"@),
        Instrument::Trumpet => Some("minecraft:waxed_copper_block"@),
        Instrument::TrumpetExposed => Some("minecraft:waxed_exposed_copper"@),
        Instrument::TrumpetWeathered => Some("minecraft:waxed_weathered_copper"@),
        Instrument::TrumpetOxidized => Some("minecraft:waxed_oxidized_copper"@),
        Instrument::Imitate(m) => Some(spec_imitate_block(m)),
        Instrument::Custom(_) => None,
    }
}

impl Instrument {
    /// The number of vanilla instruments in the newest NBS version.
    pub fn vanilla_count() -> (r: u8)
        ensures
            r == 20,
    {
        20
    }

    /// Returns the fixed table index of a vanilla instrument, if this is one.
    /// Vanilla instruments occupy indexes 0..20 (including the v6 trumpets).
    pub fn vanilla_index(self) -> (r: Option<u8>)
        ensures
            r == spec_vanilla_index(self),
    {
        match self {
            Instrument::Harp => Some(0),
            Instrument::DoubleBass => Some(1),
            Instrument::BassDrum => Some(2),
            Instrument::SnareDrum => Some(3),
            Instrument::Click => Some(4),
            Instrument::Guitar => Some(5),
            Instrument::Flute => Some(6),
            Instrument::Bell => Some(7),
            Instrument::Chime => Some(8),
            Instrument::Xylophone => Some(9),
            Instrument::IronXylophone => Some(10),
            Instrument::CowBell => Some(11),
            Instrument::Didgeridoo => Some(12),
            Instrument::Bit => Some(13),
            Instrument::Banjo => Some(14),
            Instrument::Pling => Some(15),
            Instrument::Trumpet => Some(16),
            Instrument::TrumpetExposed => Some(17),
            Instrument::TrumpetWeathered => Some(18),
            Instrument::TrumpetOxidized => Some(19),
            _ => None,
        }
    }

    /// The vanilla instrument at an NBS instrument index below 20.
    pub fn from_vanilla_index(index: u8) -> (r: Option<Instrument>)
        ensures
            r is Some <==> index < 20,
            r matches Some(i) ==> spec_vanilla_index(i) == Some(index),
            r == spec_vanilla_at(index),
    {
        match index {
            0 => Some(Instrument::Harp),
            1 => Some(Instrument::DoubleBass),
            2 => Some(Instrument::BassDrum),
            3 => Some(Instrument::SnareDrum),
            4 => Some(Instrument::Click),
            5 => Some(Instrument::Guitar),
            6 => Some(Instrument::Flute),
            7 => Some(Instrument::Bell),
            8 => Some(Instrument::Chime),
            9 => Some(Instrument::Xylophone),
            10 => Some(Instrument::IronXylophone),
            11 => Some(Instrument::CowBell),
            12 => Some(Instrument::Didgeridoo),
            13 => Some(Instrument::Bit),
            14 => Some(Instrument::Banjo),
            15 => Some(Instrument::Pling),
            16 => Some(Instrument::Trumpet),
            17 => Some(Instrument::TrumpetExposed),
            18 => Some(Instrument::TrumpetWeathered),
            19 => Some(Instrument::TrumpetOxidized),
            _ => None,
        }
    }

    /// Returns the canonical OpenNBS name and sound file of a vanilla
    /// instrument, used as the generic fallback when such an instrument must
    /// be stored as a custom instrument in an older NBS version.
    pub fn nbs_definition(self) -> (r: Option<(&'static str, &'static str)>)
        ensures
            r is Some <==> spec_nbs_definition(self) is Some,
            r matches Some(d) ==> spec_nbs_definition(self) == Some((d.0@, d.1@)),
    {
        match self {
            Instrument::Harp => Some(("Harp", "harp.ogg")),
            Instrument::DoubleBass => Some(("Double Bass", "dbass.ogg")),
            Instrument::BassDrum => Some(("Bass Drum", "bdrum.ogg")),
            Instrument::SnareDrum => Some(("Snare Drum", "sdrum.ogg")),
            Instrument::Click => Some(("Click", "click.ogg")),
            Instrument::Guitar => Some(("Guitar", "guitar.ogg")),
            Instrument::Flute => Some(("Flute", "flute.ogg")),
            Instrument::Bell => Some(("Bell", "bell.ogg")),
            Instrument::Chime => Some(("Chime", "icechime.ogg")),
            Instrument::Xylophone => Some(("Xylophone", "xylobone.ogg")),
            Instrument::IronXylophone => Some(("Iron Xylophone", "iron_xylophone.ogg")),
            Instrument::CowBell => Some(("Cow Bell", "cow_bell.ogg")),
            Instrument::Didgeridoo => Some(("Didgeridoo", "didgeridoo.ogg")),
            Instrument::Bit => Some(("Bit", "bit.ogg")),
            Instrument::Banjo => Some(("Banjo", "banjo.ogg")),
            Instrument::Pling => Some(("Pling", "pling.ogg")),
            Instrument::Trumpet => Some(("Trumpet", "trumpet.ogg")),
            Instrument::TrumpetExposed => Some(("Exposed Trumpet", "trumpet_exposed.ogg")),
            Instrument::TrumpetWeathered => Some(("Weathered Trumpet", "trumpet_weathered.ogg")),
            Instrument::TrumpetOxidized => Some(("Oxidized Trumpet", "trumpet_oxidized.ogg")),
            _ => None,
        }
    }

    /// Returns the minecraft instrument property string for note block state.
    pub fn note_property(&self) -> (r: &'static str)
        ensures
            r@ == spec_note_property(*self),
    {
        match self {
            Instrument::Harp => "harp",
            Instrument::DoubleBass => "bass",
            Instrument::BassDrum => "basedrum",
            Instrument::SnareDrum => "snare",
            Instrument::Click => "hat",
            Instrument::Guitar => "guitar",
            Instrument::Flute => "flute",
            Instrument::Bell => "bell",
            Instrument::Chime => "chime",
            Instrument::Xylophone => "xylophone",
            Instrument::IronXylophone => "iron_xylophone",
            Instrument::CowBell => "cow_bell",
            Instrument::Didgeridoo => "didgeridoo",
            Instrument::Bit => "bit",
            Instrument::Banjo => "banjo",
            Instrument::Pling => "pling",
            Instrument::Trumpet => "trumpet",
            Instrument::TrumpetExposed => "trumpet_exposed",
            Instrument::TrumpetWeathered => "trumpet_weathered",
            Instrument::TrumpetOxidized => "trumpet_oxidized",
            Instrument::Imitate(instrument) => instrument.note_property(),
            Instrument::Custom(_) => "custom",
        }
    }

    /// Returns the block resource name for this instrument.
    pub fn block_resource(&self) -> (r: Option<&'static str>)
        ensures
            r is Some <==> spec_block_resource(*self) is Some,
            r matches Some(b) ==> spec_block_resource(*self) == Some(b@),
    {
        match self {
            Instrument::Harp => Some("minecraft:dirt"),
            Instrument::DoubleBass => Some("minecraft:oak_planks"),
            Instrument::BassDrum => Some("minecraft:stone"),
            Instrument::SnareDrum => Some("minecraft:sand"),
            Instrument::Click => Some("minecraft:glass"),
            Instrument::Guitar => Some("minecraft:white_wool"),
            Instrument::Flute => Some("minecraft:clay"),
            Instrument::Bell => Some("minecraft:gold_block"),
            Instrument::Chime => Some("minecraft:packed_ice"),
            Instrument::Xylophone => Some("minecraft:bone_block"),
            Instrument::IronXylophone => Some("minecraft:iron_block"),
            Instrument::CowBell => Some("minecraft:soul_sand"),
            Instrument::Didgeridoo => Some("minecraft:pumpkin"),
            Instrument::Bit => Some("minecraft:emerald_block"),
            Instrument::Banjo => Some("minecraft:hay_block"),
            Instrument::Pling => Some("minecraft:glowstone"),
            Instrument::Trumpet => Some("minecraft:waxed_copper_block"),
            Instrument::TrumpetExposed => Some("minecraft:waxed_exposed_copper"),
            Instrument::TrumpetWeathered => Some("minecraft:waxed_weathered_copper"),
            Instrument::TrumpetOxidized => Some("minecraft:waxed_oxidized_copper"),
            Instrument::Imitate(instrument) => Some(instrument.block_resource()),
            Instrument::Custom(_) => None,
        }
    }
}

impl ImitateInstrument {
    /// Returns the minecraft instrument property string for note block state.
    pub fn note_property(self) -> (r: &'static str)
        ensures
            r@ == spec_imitate_property(self),
    {
        match self {
            ImitateInstrument::Creeper => "creeper",
            ImitateInstrument::Skeleton => "skeleton",
            ImitateInstrument::Dragon => "ender_dragon",
            ImitateInstrument::WitherSkeleton => "wither_skeleton",
            ImitateInstrument::Piglin => "piglin",
            ImitateInstrument::Zombie => "zombie",
            ImitateInstrument::CustomHead => "custom_head",
        }
    }

    /// Returns the block resource name for this mob head.
    pub fn block_resource(self) -> (r: &'static str)
        ensures
            r@ == spec_imitate_block(self),
    {
        match self {
            ImitateInstrument::Creeper => "minecraft:creeper_head",
            ImitateInstrument::Skeleton => "minecraft:skeleton_skull",
            ImitateInstrument::Dragon => "minecraft:dragon_head",
            ImitateInstrument::WitherSkeleton => "minecraft:wither_skeleton_skull",
            ImitateInstrument::Piglin => "minecraft:piglin_head",
            ImitateInstrument::Zombie => "minecraft:zombie_head",
            ImitateInstrument::CustomHead => "minecraft:player_head",
        }
    }
}

// key
//
// ++++++++++++============++++++++++++============++++++++++++============

/// A musical key (f#3-f#5 are the playable ones).
#[derive(Debug, Clone, Copy, PartialEq, Eq, Structural, PartialOrd, Ord, Hash)]
pub struct Key(u8);

impl Key {
    /// The NBS key number.
    pub closed spec fn spec_value(self) -> u8 {
        self.0
    }

    /// The key with NBS key number `key`.
    pub fn new(key: u8) -> (r: Self)
        ensures
            r.spec_value() == key,
    {
        Key(key)
    }

    /// Converts a minecraft note (0-24, f#3-f#5) to the corresponding nbs key.
    pub fn from_minecraft_note<T: NoteNumber>(note: T) -> (r: Option<Self>)
        ensures
            r is Some <==> 0 <= note.spec_number() <= 24,
            r matches Some(k) ==> k.spec_value() == note.spec_number() + 33,
    {
        let byte = note.to_byte()?;
        let key = byte.checked_add(33)?;
        if key <= 57 {
            Some(Key(key))
        } else {
            None
        }
    }

    /// Converts the nbs key to the corresponding minecraft note (0-24, f#3-f#5).
    pub fn minecraft_note(&self) -> (r: Option<u8>)
        ensures
            r is Some <==> 33 <= self.spec_value() <= 57,
            r matches Some(n) ==> n == self.spec_value() - 33,
    {
        match self.0.checked_sub(33) {
            Some(n) => if n <= 24 {
                Some(n)
            } else {
                None
            },
            None => None,
        }
    }
}

/// The name of a pitch class, counted from A.
pub open spec fn pitch_class_name(i: int) -> Seq<char> {
    if i == 0 {
        "A"@
    } else if i == 1 {
        "A#"@
    } else if i == 2 {
        "B"@
    } else if i == 3 {
        "C"@
    } else if i == 4 {
        "C#"@
    } else if i == 5 {
        "D"@
    } else if i == 6 {
        "D#"@
    } else if i == 7 {
        "E"@
    } else if i == 8 {
        "F"@
    } else if i == 9 {
        "F#"@
    } else if i == 10 {
        "G"@
    } else {
        "G#"@
    }
}

/// A number below 100 in two digits.
pub open spec fn two_digits(n: nat) -> Seq<char> {
    if n < 10 { "0"@ + decimal(n) } else { decimal(n) }
}

/// The name of a key: its pitch class and octave number (the key number
/// over 12), then the note block clicks it takes, or "invalid" for a key a
/// note block cannot play.
pub open spec fn key_name(k: u8) -> Seq<char> {
    pitch_class_name((k % 12) as int) + decimal((k / 12) as nat) + " ("@ + (if 33 <= k <= 57 {
        two_digits((k - 33) as nat) + " clicks"@
    } else {
        "invalid"@
    }) + ")"@
}

/// The twelve pitch classes in chromatic order, a semitone apart, from A.
pub open spec fn chromatic_from_a() -> Seq<Seq<char>> {
    seq!["A"@, "A#"@, "B"@, "C"@, "C#"@, "D"@, "D#"@, "E"@, "F"@, "F#"@, "G"@, "G#"@]
}

/// Law: the pitch classes, counted up by semitones, run through the
/// chromatic scale from A.
pub proof fn lemma_pitch_classes()
    ensures
        forall|i: int| 0 <= i < 12 ==> #[trigger] pitch_class_name(i) == chromatic_from_a()[i],
{
    assert(pitch_class_name(0) == chromatic_from_a()[0]);
    assert(pitch_class_name(1) == chromatic_from_a()[1]);
    assert(pitch_class_name(2) == chromatic_from_a()[2]);
    assert(pitch_class_name(3) == chromatic_from_a()[3]);
    assert(pitch_class_name(4) == chromatic_from_a()[4]);
    assert(pitch_class_name(5) == chromatic_from_a()[5]);
    assert(pitch_class_name(6) == chromatic_from_a()[6]);
    assert(pitch_class_name(7) == chromatic_from_a()[7]);
    assert(pitch_class_name(8) == chromatic_from_a()[8]);
    assert(pitch_class_name(9) == chromatic_from_a()[9]);
    assert(pitch_class_name(10) == chromatic_from_a()[10]);
    assert(pitch_class_name(11) == chromatic_from_a()[11]);
}

/// Law: a key's name starts with its pitch class, the keys counting up by
/// semitones through the chromatic scale from A at key 0 (so keys twelve
/// apart share a class), followed by its octave number.
#[verifier::spinoff_prover]
pub proof fn lemma_key_pitch_class(k: u8)
    ensures
        key_name(k).take((chromatic_from_a()[(k % 12) as int].len() + decimal((k / 12) as nat).len()) as int)
            == chromatic_from_a()[(k % 12) as int] + decimal((k / 12) as nat),
        pitch_class_name(((k as int) + 12) % 12) == chromatic_from_a()[(k % 12) as int],
{
    lemma_pitch_classes();
    let c = (k % 12) as int;
    assert(((k as int) + 12) % 12 == c);
    let p = pitch_class_name(c);
    let d = decimal((k / 12) as nat);
    let clicks = if 33 <= k <= 57 {
        two_digits((k - 33) as nat) + " clicks"@
    } else {
        "invalid"@
    };
    let tail = " ("@ + clicks + ")"@;
    assert(key_name(k) =~= (p + d) + tail);
    assert(((p + d) + tail).take((p + d).len() as int) =~= p + d);
}

fn pitch_class(i: u8) -> (r: &'static str)
    requires
        i < 12,
    ensures
        r@ == pitch_class_name(i as int),
{
    match i {
        0 => "A",
        1 => "A#",
        2 => "B",
        3 => "C",
        4 => "C#",
        5 => "D",
        6 => "D#",
        7 => "E",
        8 => "F",
        9 => "F#",
        10 => "G",
        _ => "G#",
    }
}

impl Key {
    /// The name of the key, such as `F#3 (12 clicks)`.
    pub fn name(&self) -> (r: String)
        ensures
            r@ == key_name(self.spec_value()),
    {
        let k = self.0;
        let mut s = String::from_str(pitch_class(k % 12));
        let octave = u8_to_string(k / 12);
        s.append(octave.as_str());
        s.append(" (");
        match self.minecraft_note() {
            Some(clicks) => {
                if clicks < 10 {
                    s.append("0");
                }
                let digits = u8_to_string(clicks);
                s.append(digits.as_str());
                s.append(" clicks");
            },
            None => {
                s.append("invalid");
            },
        }
        s.append(")");
        proof {
            if 33 <= k <= 57 {
                let c = (k - 33) as nat;
                if c < 10 {
                    assert(two_digits(c) == "0"@ + decimal(c));
                }
            }
            assert(s@ =~= key_name(k));
        }
        s
    }
}

impl Default for Key {
    /// The lowest playable key, F#3.
    fn default() -> (r: Self)
        ensures
            r.spec_value() == 33,
    {
        Key(33)
    }
}

impl From<u8> for Key {
    fn from(value: u8) -> (r: Self) {
        Key(value)
    }
}

impl FromSpecImpl<u8> for Key {
    open spec fn obeys_from_spec() -> bool {
        true
    }

    open spec fn from_spec(value: u8) -> Key {
        Key::spec_new(value)
    }
}

impl Key {
    /// The key with NBS key number `value`.
    pub closed spec fn spec_new(value: u8) -> Key {
        Key(value)
    }

    /// The key made from a key number has that key number.
    pub proof fn lemma_spec_new(value: u8)
        ensures
            Key::spec_new(value).spec_value() == value,
    {
    }

    /// A key is determined by its key number.
    pub proof fn lemma_value_eq(self, other: Key)
        ensures
            self.spec_value() == other.spec_value() <==> self == other,
    {
    }
}

impl From<Key> for u8 {
    fn from(value: Key) -> (r: u8) {
        value.0
    }
}

impl FromSpecImpl<Key> for u8 {
    open spec fn obeys_from_spec() -> bool {
        true
    }

    open spec fn from_spec(value: Key) -> u8 {
        value.spec_value()
    }
}

/// A number that may name a minecraft note.
pub trait NoteNumber: Sized {
    /// The number's value.
    spec fn spec_number(self) -> int;

    /// The number as a byte, if it fits one.
    fn to_byte(self) -> (r: Option<u8>)
        ensures
            r is Some <==> 0 <= self.spec_number() <= 255,
            r matches Some(b) ==> b == self.spec_number(),
    ;
}

impl NoteNumber for u8 {
    open spec fn spec_number(self) -> int {
        self as int
    }

    fn to_byte(self) -> (r: Option<u8>) {
        Some(self)
    }
}

impl NoteNumber for u16 {
    open spec fn spec_number(self) -> int {
        self as int
    }

    fn to_byte(self) -> (r: Option<u8>) {
        if self <= 255 {
            Some(self as u8)
        } else {
            None
        }
    }
}

impl NoteNumber for u32 {
    open spec fn spec_number(self) -> int {
        self as int
    }

    fn to_byte(self) -> (r: Option<u8>) {
        if self <= 255 {
            Some(self as u8)
        } else {
            None
        }
    }
}

impl NoteNumber for u64 {
    open spec fn spec_number(self) -> int {
        self as int
    }

    fn to_byte(self) -> (r: Option<u8>) {
        if self <= 255 {
            Some(self as u8)
        } else {
            None
        }
    }
}

impl NoteNumber for usize {
    open spec fn spec_number(self) -> int {
        self as int
    }

    fn to_byte(self) -> (r: Option<u8>) {
        if self <= 255 {
            Some(self as u8)
        } else {
            None
        }
    }
}

impl NoteNumber for i32 {
    open spec fn spec_number(self) -> int {
        self as int
    }

    fn to_byte(self) -> (r: Option<u8>) {
        if 0 <= self && self <= 255 {
            Some(self as u8)
        } else {
            None
        }
    }
}

impl NoteNumber for i64 {
    open spec fn spec_number(self) -> int {
        self as int
    }

    fn to_byte(self) -> (r: Option<u8>) {
        if 0 <= self && self <= 255 {
            Some(self as u8)
        } else {
            None
        }
    }
}

// tone
//
// ++++++++++++============++++++++++++============++++++++++++============

/// A tone is a pair of an instrument and a key.
#[derive(Debug, Clone, Copy, PartialEq, Eq, Structural, PartialOrd, Ord, Hash)]
pub struct Tone {
    pub instrument: Instrument,
    pub key: Key,
}

impl Tone {
    pub fn new(instrument: Instrument, key: Key) -> (r: Self)
        ensures
            r.instrument == instrument,
            r.key == key,
    {
        Self { instrument, key }
    }

    /// The instrument of the tone.
    pub fn instrument(&self) -> (r: Instrument)
        ensures
            r == self.instrument,
    {
        self.instrument
    }

    /// The key of the tone.
    pub fn key(&self) -> (r: Key)
        ensures
            r == self.key,
    {
        self.key
    }

    /// Whether this tone is renderable: built-in instrument with a minecraft note.
    pub open spec fn spec_is_valid(self) -> bool {
        !(self.instrument is Custom) && 33 <= self.key.spec_value() <= 57
    }

    /// Whether this tone is renderable: built-in instrument with a minecraft note.
    pub fn is_valid(&self) -> (r: bool)
        ensures
            r == self.spec_is_valid(),
    {
        !matches!(self.instrument, Instrument::Custom(_)) && self.key.minecraft_note().is_some()
    }
}

impl Default for Tone {
    /// A harp at F#3.
    fn default() -> (r: Self)
        ensures
            r.instrument == Instrument::Harp,
            r.key.spec_value() == 33,
    {
        Tone { instrument: Instrument::Harp, key: Key(33) }
    }
}

impl Event for Tone {
    fn same(&self, other: &Self) -> (r: bool) {
        *self == *other
    }

    fn duplicate(&self) -> (r: Self) {
        *self
    }
}

// note
//
// ++++++++++++============++++++++++++============++++++++++++============

/// A single note with instrument, key and modulation data.
#[derive(Debug, Clone, Copy, PartialEq, Eq, Structural, PartialOrd, Ord, Hash)]
pub struct Note {
    pub tone: Tone,
    pub velocity: Volume,
    pub panning: Panning,
    pub pitch: i16,
}

impl Event for Note {
    fn same(&self, other: &Self) -> (r: bool) {
        *self == *other
    }

    fn duplicate(&self) -> (r: Self) {
        *self
    }
}

/// A value a note is made from: a tone, a borrowed tone, or a note itself.
pub trait IntoNote {
    /// `n` is the note made from the value.
    spec fn makes(&self, n: Note) -> bool;

    /// The note made from the value.
    fn into_note(self) -> (r: Note)
        ensures
            self.makes(r),
    ;
}

impl IntoNote for Tone {
    /// A tone makes a note of it at full volume, centered, without pitch
    /// offset.
    open spec fn makes(&self, n: Note) -> bool {
        &&& n.tone == *self
        &&& n.velocity.spec_get() == 100
        &&& n.panning.spec_get() == 0
        &&& n.pitch == 0
    }

    fn into_note(self) -> (r: Note) {
        Note { tone: self, velocity: Volume::default(), panning: Panning::default(), pitch: 0 }
    }
}

impl<'a> IntoNote for &'a Tone {
    /// A borrowed tone makes the note that the tone makes.
    open spec fn makes(&self, n: Note) -> bool {
        (**self).makes(n)
    }

    fn into_note(self) -> (r: Note) {
        Note { tone: *self, velocity: Volume::default(), panning: Panning::default(), pitch: 0 }
    }
}

impl IntoNote for Note {
    /// A note makes itself.
    open spec fn makes(&self, n: Note) -> bool {
        n == *self
    }

    fn into_note(self) -> (r: Note) {
        self
    }
}

impl Note {
    /// A note made from `value`: a tone at full volume, centered, without
    /// pitch offset, or a note as it is.
    pub fn new<T: IntoNote>(value: T) -> (r: Self)
        ensures
            value.makes(r),
    {
        value.into_note()
    }

    /// The tone of the note.
    pub fn tone(&self) -> (r: Tone)
        ensures
            r == self.tone,
    {
        self.tone
    }

    /// Replaces the instrument of the note's tone.
    pub fn set_instrument(&mut self, instrument: Instrument)
        ensures
            final(self).tone.instrument == instrument,
            final(self).tone.key == old(self).tone.key,
            final(self).velocity == old(self).velocity,
            final(self).panning == old(self).panning,
            final(self).pitch == old(self).pitch,
    {
        self.tone.instrument = instrument;
    }
}

impl Default for Note {
    /// A harp note at F#3, full volume, centered.
    fn default() -> (r: Self)
        ensures
            r.tone.instrument == Instrument::Harp,
            r.tone.key.spec_value() == 33,
            r.velocity.spec_get() == 100,
            r.panning.spec_get() == 0,
            r.pitch == 0,
    {
        Note { tone: Tone::default(), velocity: Volume::default(), panning: Panning::default(), pitch: 0 }
    }
}

} // verus!
