//! A complete NBS song: header, notes, layers and custom instruments.

use crate::note::Note;
use crate::notes::Notes;
use crate::types::{Index, Panning, Tick, Version, Volume, CURRENT_NBS_VERSION};
use vstd::prelude::*;

verus! {

/// Metadata and song information from the NBS file header.
#[derive(Debug, Clone)]
pub struct Header {
    pub version: Version,
    pub default_instruments: u8,
    pub song_length: Tick,
    pub song_layers: Index,
    pub song_name: String,
    pub song_author: String,
    pub original_author: String,
    pub description: String,
    /// The tempo in hundredths of ticks per second, as the file stores it
    /// (1000 is 10 ticks per second).
    pub tempo: u16,
    pub auto_save: bool,
    pub auto_save_duration: u32,
    pub time_signature: u8,
    pub minutes_spent: u32,
    pub left_clicks: u32,
    pub right_clicks: u32,
    pub blocks_added: u32,
    pub blocks_removed: u32,
    pub song_origin: String,
    pub is_loop: bool,
    pub max_loop_count: u32,
    pub loop_start: Tick,
}

impl Default for Header {
    /// A current-version header: 10 ticks per second, 4/4, auto-save every
    /// 10 minutes switched off, empty texts and zero statistics.
    fn default() -> (r: Self)
        ensures
            r.version.spec_get() == CURRENT_NBS_VERSION,
            r.default_instruments == 20,
            r.song_length == 0,
            r.song_layers == 0,
            r.song_name@.len() == 0,
            r.song_author@.len() == 0,
            r.original_author@.len() == 0,
            r.description@.len() == 0,
            r.tempo == 1000,
            !r.auto_save,
            r.auto_save_duration == 10,
            r.time_signature == 4,
            r.minutes_spent == 0,
            r.left_clicks == 0,
            r.right_clicks == 0,
            r.blocks_added == 0,
            r.blocks_removed == 0,
            r.song_origin@.len() == 0,
            !r.is_loop,
            r.max_loop_count == 0,
            r.loop_start == 0,
    {
        let version = Version::default();
        Header {
            version,
            default_instruments: version.vanilla_instruments(),
            song_length: 0,
            song_layers: 0,
            song_name: String::new(),
            song_author: String::new(),
            original_author: String::new(),
            description: String::new(),
            tempo: 1000,
            auto_save: false,
            auto_save_duration: 10,
            time_signature: 4,
            minutes_spent: 0,
            left_clicks: 0,
            right_clicks: 0,
            blocks_added: 0,
            blocks_removed: 0,
            song_origin: String::new(),
            is_loop: false,
            max_loop_count: 0,
            loop_start: 0,
        }
    }
}

/// A layer with volume, panning and lock settings.
#[derive(Debug, Clone)]
pub struct Layer {
    pub name: String,
    pub lock: bool,
    pub volume: Volume,
    pub panning: Panning,
}

impl Default for Layer {
    /// An unnamed, unlocked layer at full volume, centered.
    fn default() -> (r: Self)
        ensures
            r.name@.len() == 0,
            !r.lock,
            r.volume.spec_get() == 100,
            r.panning.spec_get() == 0,
    {
        Layer { name: String::new(), lock: false, volume: Volume::default(), panning: Panning::default() }
    }
}

/// An instrument with sound file, pitch and playback settings.
#[derive(Debug, Clone)]
pub struct CustomInstrument {
    pub name: String,
    pub file: String,
    pub pitch: u8,
    pub press_key: bool,
}

impl Default for CustomInstrument {
    /// An unnamed instrument without sound file, at key 45 (F#4), played on
    /// key press.
    fn default() -> (r: Self)
        ensures
            r.name@.len() == 0,
            r.file@.len() == 0,
            r.pitch == 45,
            r.press_key,
    {
        CustomInstrument { name: String::new(), file: String::new(), pitch: 45, press_key: true }
    }
}

/// A complete NBS song with header, notes, layers and instruments.
#[derive(Debug)]
pub struct Song {
    pub header: Header,
    pub notes: Notes<Note>,
    pub layers: Vec<Layer>,
    pub custom_instruments: Vec<CustomInstrument>,
}

impl Song {
    /// A new empty song with a default header.
    pub fn new() -> (r: Self)
        ensures
            r.header.version.spec_get() == CURRENT_NBS_VERSION,
            r.header.default_instruments == 20,
            r.notes.wf(),
            r.notes.entries().len() == 0,
            r.layers@.len() == 0,
            r.custom_instruments@.len() == 0,
    {
        Song { header: Header::default(), notes: Notes::new(), layers: Vec::new(), custom_instruments: Vec::new() }
    }

    /// The tick count of the song: the last note's tick plus one, or 0
    /// without notes.
    pub fn len(&self) -> (r: Tick)
        requires
            self.notes.entries().len() > 0 ==> self.notes.entries().last().0.spec_tick() < u32::MAX,
        ensures
            r == if self.notes.entries().len() == 0 {
                0
            } else {
                self.notes.entries().last().0.spec_tick() + 1
            },
    {
        match self.notes.last_key_value() {
            Some((p, _)) => p.tick() + 1,
            None => 0,
        }
    }

    /// Refreshes the derived header fields: the song length becomes the last
    /// note's tick (1 without notes), the layer count that of the layers
    /// (wrapping to 32 bits), the vanilla count that of the version.
    pub fn refresh(&mut self)
        ensures
            final(self).header.song_length == if old(self).notes.entries().len() == 0 {
                1
            } else {
                old(self).notes.entries().last().0.spec_tick()
            },
            final(self).header.song_layers == old(self).layers@.len() as u32,
            final(self).header.default_instruments == Version::spec_vanilla_instruments(
                old(self).header.version.spec_get(),
            ),
            final(self).header.version == old(self).header.version,
            final(self).header == (Header {
                song_length: final(self).header.song_length,
                song_layers: final(self).header.song_layers,
                default_instruments: final(self).header.default_instruments,
                ..old(self).header
            }),
            final(self).notes == old(self).notes,
            final(self).layers == old(self).layers,
            final(self).custom_instruments == old(self).custom_instruments,
    {
        self.header.song_length = match self.notes.last_key_value() {
            Some((p, _)) => p.tick(),
            None => 1,
        };
        self.header.song_layers = self.layers.len() as u32;
        self.header.default_instruments = self.header.version.vanilla_instruments();
    }
}

impl Default for Song {
    /// A new empty song.
    fn default() -> (r: Self)
        ensures
            r.header.version.spec_get() == CURRENT_NBS_VERSION,
            r.notes.entries().len() == 0,
            r.layers@.len() == 0,
            r.custom_instruments@.len() == 0,
    {
        Song::new()
    }
}

} // verus!
