//! Basic value types of the NBS format.

use crate::error::{decimal, i8_to_string, signed_decimal, u8_to_string};
use vstd::prelude::*;

pub use crate::error::{Error, Result};

verus! {

/// Represents the layer index.
pub type Index = u32;

/// Represents the time step.
pub type Tick = u32;

/// The current NBS (Note Block Studio) file format version.
pub const CURRENT_NBS_VERSION: u8 = 6;

/// Represents a valid NBS format version (0 through 6).
#[derive(Debug, Clone, Copy, PartialEq, Eq, Structural, PartialOrd, Ord, Hash)]
pub struct Version(u8);

impl Version {
    /// The version number.
    pub closed spec fn spec_get(self) -> u8 {
        self.0
    }

    /// Whether a version number is supported.
    pub open spec fn valid_number(version: u8) -> bool {
        version <= CURRENT_NBS_VERSION
    }

    /// The amount of vanilla instruments in a version.
    pub open spec fn spec_vanilla_instruments(version: u8) -> u8 {
        if version == 0 {
            10
        } else if version <= 5 {
            16
        } else {
            20
        }
    }

    /// A version always holds a supported number.
    #[verifier::type_invariant]
    spec fn supported(self) -> bool {
        Self::valid_number(self.0)
    }


    /// The version `version`, if it is supported (0 through 6).
    pub fn new(version: u8) -> (r: Result<Self>)
        ensures
            Self::valid_number(version) <==> r is Ok,
            r matches Ok(v) ==> v.spec_get() == version,
            r matches Err(e) ==> e matches Error::InvalidVersion(s) && s@ == decimal(version as nat),
    {
        if version <= CURRENT_NBS_VERSION {
            Ok(Version(version))
        } else {
            Err(Error::InvalidVersion(u8_to_string(version)))
        }
    }

    pub fn get(&self) -> (r: u8)
        ensures
            r == self.spec_get(),
            Self::valid_number(r),
    {
        proof {
            use_type_invariant(self);
        }
        self.0
    }

    /// The amount of vanilla instruments in this NBS version.
    /// Version 6 added the four trumpet instruments.
    pub fn vanilla_instruments(self) -> (r: u8)
        ensures
            r == Self::spec_vanilla_instruments(self.spec_get()),
    {
        match self.0 {
            0 => 10,
            1..=5 => 16,
            _ => 20,
        }
    }
}

impl Default for Version {
    /// The current version.
    fn default() -> (r: Self)
        ensures
            r.spec_get() == CURRENT_NBS_VERSION,
    {
        Version(CURRENT_NBS_VERSION)
    }
}

/// Represents a position with tick and layer index.
#[derive(Debug, Clone, Copy, PartialEq, Eq, Structural, PartialOrd, Ord, Hash)]
pub struct Position {
    tick: Tick,
    layer: Index,
}

impl Position {
    /// The tick of the position.
    pub closed spec fn spec_tick(self) -> Tick {
        self.tick
    }

    /// The layer of the position.
    pub closed spec fn spec_layer(self) -> Index {
        self.layer
    }

    /// Strict order of positions: by tick, then by layer.
    pub open spec fn less(self, other: Position) -> bool {
        self.spec_tick() < other.spec_tick() || (self.spec_tick() == other.spec_tick()
            && self.spec_layer() < other.spec_layer())
    }

    /// The position at `tick` on `layer`.
    pub closed spec fn spec_at(tick: Tick, layer: Index) -> Position {
        Position { tick, layer }
    }

    pub broadcast proof fn lemma_at_fields(tick: Tick, layer: Index)
        ensures
            (#[trigger] Position::spec_at(tick, layer)).spec_tick() == tick && Position::spec_at(
                tick,
                layer,
            ).spec_layer() == layer,
    {
    }

    pub broadcast proof fn lemma_at_of(p: Position)
        ensures
            #[trigger] Position::spec_at(p.spec_tick(), p.spec_layer()) == p,
    {
    }

    /// A position is determined by its tick and layer.
    pub proof fn lemma_eq(self, other: Position)
        ensures
            (self.spec_tick() == other.spec_tick() && self.spec_layer() == other.spec_layer()) <==> self
                == other,
    {
    }

    pub fn new(tick: Tick, layer: Index) -> (r: Self)
        ensures
            r.spec_tick() == tick,
            r.spec_layer() == layer,
            r == Position::spec_at(tick, layer),
    {
        Self { tick, layer }
    }

    pub fn layer(self) -> (r: Index)
        ensures
            r == self.spec_layer(),
    {
        self.layer
    }

    /// The tick of the position.
    pub fn tick(self) -> (r: Tick)
        ensures
            r == self.spec_tick(),
    {
        self.tick
    }

    /// The same tick on another layer.
    pub fn with_layer(self, layer: Index) -> (r: Self)
        ensures
            r.spec_tick() == self.spec_tick(),
            r.spec_layer() == layer,
            r == Position::spec_at(self.spec_tick(), layer),
    {
        Self { tick: self.tick, layer }
    }

    /// Whether `self` comes strictly before `other`.
    pub fn before(&self, other: &Position) -> (r: bool)
        ensures
            r == self.less(*other),
    {
        self.tick < other.tick || (self.tick == other.tick && self.layer < other.layer)
    }
}

impl Default for Position {
    fn default() -> (r: Self)
        ensures
            r.spec_tick() == 0,
            r.spec_layer() == 0,
    {
        Position { tick: 0, layer: 0 }
    }
}

/// Conversion into a tick value.
pub trait IntoTick: Sized {
    /// The tick that the value stands for.
    spec fn spec_into_tick(self) -> Tick;

    fn into_tick(self) -> (r: Tick)
        ensures
            r == self.spec_into_tick(),
    ;
}

impl IntoTick for Tick {
    open spec fn spec_into_tick(self) -> Tick {
        self
    }

    fn into_tick(self) -> (r: Tick) {
        self
    }
}

impl IntoTick for u16 {
    open spec fn spec_into_tick(self) -> Tick {
        self as Tick
    }

    fn into_tick(self) -> (r: Tick) {
        self as Tick
    }
}

impl IntoTick for u8 {
    open spec fn spec_into_tick(self) -> Tick {
        self as Tick
    }

    fn into_tick(self) -> (r: Tick) {
        self as Tick
    }
}

impl IntoTick for Position {
    open spec fn spec_into_tick(self) -> Tick {
        self.spec_tick()
    }

    fn into_tick(self) -> (r: Tick) {
        self.tick
    }
}

impl<'a> IntoTick for &'a Position {
    open spec fn spec_into_tick(self) -> Tick {
        self.spec_tick()
    }

    fn into_tick(self) -> (r: Tick) {
        self.tick
    }
}

/// Represents a volume value in the range 0-100.
#[derive(Debug, Clone, Copy, PartialEq, Eq, Structural, PartialOrd, Ord, Hash)]
pub struct Volume(u8);

impl Volume {
    /// The volume value.
    pub closed spec fn spec_get(self) -> u8 {
        self.0
    }

    #[verifier::type_invariant]
    spec fn in_range(self) -> bool {
        self.0 <= 100
    }

    /// A volume is determined by its value.
    pub proof fn lemma_get_eq(self, other: Volume)
        ensures
            self.spec_get() == other.spec_get() <==> self == other,
    {
    }


    /// The volume `volume`, if it lies in 0..=100.
    pub fn new(volume: u8) -> (r: Result<Self>)
        ensures
            volume <= 100 <==> r is Ok,
            r matches Ok(v) ==> v.spec_get() == volume,
            r matches Err(e) ==> e matches Error::InvalidVolume(s) && s@ == decimal(volume as nat),
    {
        if volume <= 100 {
            Ok(Volume(volume))
        } else {
            Err(Error::InvalidVolume(u8_to_string(volume)))
        }
    }

    pub fn get(&self) -> (r: u8)
        ensures
            r == self.spec_get(),
            r <= 100,
    {
        proof {
            use_type_invariant(self);
        }
        self.0
    }
}

impl Default for Volume {
    /// Full volume.
    fn default() -> (r: Self)
        ensures
            r.spec_get() == 100,
    {
        Volume(100)
    }
}

/// Represents a panning value in the range -100 to 100.
#[derive(Debug, Clone, Copy, PartialEq, Eq, Structural, PartialOrd, Ord, Hash)]
pub struct Panning(i8);

impl Panning {
    /// The panning value.
    pub closed spec fn spec_get(self) -> i8 {
        self.0
    }

    #[verifier::type_invariant]
    spec fn in_range(self) -> bool {
        -100 <= self.0 <= 100
    }

    /// A panning is determined by its value.
    pub proof fn lemma_get_eq(self, other: Panning)
        ensures
            self.spec_get() == other.spec_get() <==> self == other,
    {
    }


    /// The panning `panning`, if it lies in -100..=100.
    pub fn new(panning: i8) -> (r: Result<Self>)
        ensures
            -100 <= panning <= 100 <==> r is Ok,
            r matches Ok(v) ==> v.spec_get() == panning,
            r matches Err(e) ==> e matches Error::InvalidPanning(s) && s@ == signed_decimal(panning as int),
    {
        if -100 <= panning && panning <= 100 {
            Ok(Panning(panning))
        } else {
            Err(Error::InvalidPanning(i8_to_string(panning)))
        }
    }

    pub fn get(&self) -> (r: i8)
        ensures
            r == self.spec_get(),
            -100 <= r <= 100,
    {
        proof {
            use_type_invariant(self);
        }
        self.0
    }
}

impl Default for Panning {
    /// Centered.
    fn default() -> (r: Self)
        ensures
            r.spec_get() == 0,
    {
        Panning(0)
    }
}

} // verus!
