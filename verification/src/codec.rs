//! NBS (Note Block Studio) file format parser and writer: the layout of each
//! part of a file, how it is read and written, and that a read gives back
//! what a write wrote.

use crate::bytes::{
    byte_of_bool, le16, le32, read_bool, read_string, read_u16, read_u32, read_u8, string_field, text_fits,
    u16_at, u32_at, windows_1252_decode, write_bool, write_string, write_u16, write_u32, write_u8, holds_at,
    lemma_holds_concat, lemma_string_roundtrip, lemma_u16_roundtrip, lemma_u32_roundtrip, string_payload,
    i16_at, le16_signed, read_i16, read_jump, write_i16, write_jump, jump_field, truncated,
};
use crate::error::{decimal, signed_decimal, Error, Result};
use crate::note::{lemma_definition_text, spec_vanilla_at, spec_vanilla_index, Instrument, Key, Note, Tone};
use crate::notes::{lemma_map_of_values, map_of, Notes};
use crate::song::{CustomInstrument, Header, Layer, Song};
use crate::translate::{
    is_preset_table, preset_definition, preset_definitions, encode_instrument, encoded_instrument, fold_preset_instruments, folded_note, kept_entries, sat_add,
};
use crate::types::{Index, Panning, Position, Tick, Version, Volume};
use vstd::prelude::*;

verus! {

// Header layout
//
// ++++++++++++============++++++++++++============++++++++++++============

/// Where the string field at `q` ends.
pub open spec fn str_end(b: Seq<u8>, q: int) -> int {
    q + 4 + u32_at(b, q)
}

/// The string field at `q` fits in `b`.
pub open spec fn str_fits(b: Seq<u8>, q: int) -> bool {
    q + 4 <= b.len() && str_end(b, q) <= b.len()
}

/// The text of the string field at `q`.
pub open spec fn str_text(b: Seq<u8>, q: int) -> Seq<char> {
    windows_1252_decode(b.subrange(q + 4, str_end(b, q)))
}

/// The header at `p` is in the classic format (no version byte): its first
/// `u16`, the song length, is not 0.
pub open spec fn hd_classic(b: Seq<u8>, p: int) -> bool {
    u16_at(b, p) != 0
}

/// The version the header at `p` declares.
pub open spec fn hd_version(b: Seq<u8>, p: int) -> u8 {
    if hd_classic(b, p) { 0 } else { b[p + 2] }
}

/// Where the count of vanilla instruments stands (read from version 1 on).
pub open spec fn hd_fci_at(b: Seq<u8>, p: int) -> int {
    if hd_classic(b, p) { p + 2 } else { p + 3 }
}

/// Where the song length stands (read from version 3 on).
pub open spec fn hd_length_at(b: Seq<u8>, p: int) -> int {
    hd_fci_at(b, p) + if hd_version(b, p) == 0 { 0int } else { 1int }
}

/// Where the layer count stands.
pub open spec fn hd_layers_at(b: Seq<u8>, p: int) -> int {
    hd_length_at(b, p) + if hd_version(b, p) >= 3 { 2int } else { 0int }
}

pub open spec fn hd_name_at(b: Seq<u8>, p: int) -> int {
    hd_layers_at(b, p) + 2
}

pub open spec fn hd_author_at(b: Seq<u8>, p: int) -> int {
    str_end(b, hd_name_at(b, p))
}

pub open spec fn hd_original_at(b: Seq<u8>, p: int) -> int {
    str_end(b, hd_author_at(b, p))
}

pub open spec fn hd_description_at(b: Seq<u8>, p: int) -> int {
    str_end(b, hd_original_at(b, p))
}

/// Where the tempo stands; the fixed-width statistics follow it.
pub open spec fn hd_tempo_at(b: Seq<u8>, p: int) -> int {
    str_end(b, hd_description_at(b, p))
}

pub open spec fn hd_origin_at(b: Seq<u8>, p: int) -> int {
    hd_tempo_at(b, p) + 25
}

/// Where the loop settings stand (read from version 4 on).
pub open spec fn hd_loop_at(b: Seq<u8>, p: int) -> int {
    str_end(b, hd_origin_at(b, p))
}

/// Where the header at `p` ends.
pub open spec fn hd_end(b: Seq<u8>, p: int) -> int {
    hd_loop_at(b, p) + if hd_version(b, p) >= 4 { 4int } else { 0int }
}

/// The header at `p` declares an unsupported version.
pub open spec fn hd_bad_version(b: Seq<u8>, p: int) -> bool {
    p + 3 <= b.len() && !hd_classic(b, p) && b[p + 2] > 6
}

/// The header at `p` reads completely.
pub open spec fn hd_ok(b: Seq<u8>, p: int) -> bool {
    let v = hd_version(b, p);
    &&& 0 <= p
    &&& p + 2 <= b.len()
    &&& !hd_classic(b, p) ==> p + 3 <= b.len()
    &&& v <= 6
    &&& v != 0 ==> hd_fci_at(b, p) + 1 <= b.len()
    &&& v >= 3 ==> hd_length_at(b, p) + 2 <= b.len()
    &&& hd_layers_at(b, p) + 2 <= b.len()
    &&& str_fits(b, hd_name_at(b, p))
    &&& str_fits(b, hd_author_at(b, p))
    &&& str_fits(b, hd_original_at(b, p))
    &&& str_fits(b, hd_description_at(b, p))
    &&& hd_origin_at(b, p) <= b.len()
    &&& str_fits(b, hd_origin_at(b, p))
    &&& v >= 4 ==> hd_loop_at(b, p) + 4 <= b.len()
}

/// `h` holds the fields of the header at `p`; fields that the version does
/// not store keep their defaults.
pub open spec fn hd_read(b: Seq<u8>, p: int, h: Header) -> bool {
    let v = hd_version(b, p);
    let s = hd_tempo_at(b, p) + 2;
    let l = hd_loop_at(b, p);
    &&& h.version.spec_get() == v
    &&& h.default_instruments == if v == 0 { 10 } else { b[hd_fci_at(b, p)] }
    &&& h.song_length == if v >= 3 { u16_at(b, hd_length_at(b, p)) } else { u16_at(b, p) }
    &&& h.song_layers == u16_at(b, hd_layers_at(b, p))
    &&& h.song_name@ == str_text(b, hd_name_at(b, p))
    &&& h.song_author@ == str_text(b, hd_author_at(b, p))
    &&& h.original_author@ == str_text(b, hd_original_at(b, p))
    &&& h.description@ == str_text(b, hd_description_at(b, p))
    &&& h.tempo == u16_at(b, hd_tempo_at(b, p))
    &&& h.auto_save == (b[s] == 1)
    &&& h.auto_save_duration == b[s + 1]
    &&& h.time_signature == b[s + 2]
    &&& h.minutes_spent == u32_at(b, s + 3)
    &&& h.left_clicks == u32_at(b, s + 7)
    &&& h.right_clicks == u32_at(b, s + 11)
    &&& h.blocks_added == u32_at(b, s + 15)
    &&& h.blocks_removed == u32_at(b, s + 19)
    &&& h.song_origin@ == str_text(b, hd_origin_at(b, p))
    &&& h.is_loop == (v >= 4 && b[l] == 1)
    &&& h.max_loop_count == if v >= 4 { b[l + 1] as u32 } else { 0 }
    &&& h.loop_start == if v >= 4 { u16_at(b, l + 2) as u32 } else { 0 }
}

/// `v` as a `u16`, saturated.
pub open spec fn sat16(v: u32) -> u16 {
    if v > u16::MAX { u16::MAX } else { v as u16 }
}

/// `v` as a `u8`, saturated.
pub open spec fn sat8(v: u32) -> u8 {
    if v > u8::MAX { u8::MAX } else { v as u8 }
}

/// The bytes of the version part of a header.
pub open spec fn hd_version_bytes(h: Header) -> Seq<u8> {
    let v = h.version.spec_get();
    if v > 0 {
        le16(0) + seq![v, h.default_instruments]
    } else {
        le16(sat16(if h.song_length == 0 { 1 } else { h.song_length }))
    }
}

/// The bytes of the counters and texts of a header.
pub open spec fn hd_info_bytes(h: Header) -> Seq<u8> {
    (if h.version.spec_get() >= 3 { le16(sat16(h.song_length)) } else { Seq::empty() }) + le16(sat16(h.song_layers))
        + string_field(h.song_name@) + string_field(h.song_author@) + string_field(h.original_author@)
        + string_field(h.description@)
}

/// The bytes of the tempo and statistics of a header.
pub open spec fn hd_stats_bytes(h: Header) -> Seq<u8> {
    le16(h.tempo) + seq![byte_of_bool(h.auto_save), sat8(h.auto_save_duration), h.time_signature] + le32(
        h.minutes_spent,
    ) + le32(h.left_clicks) + le32(h.right_clicks) + le32(h.blocks_added) + le32(h.blocks_removed)
}

/// The bytes of the origin and loop settings of a header.
pub open spec fn hd_tail_bytes(h: Header) -> Seq<u8> {
    string_field(h.song_origin@) + if h.version.spec_get() >= 4 {
        seq![byte_of_bool(h.is_loop), sat8(h.max_loop_count)] + le16(sat16(h.loop_start))
    } else {
        Seq::empty()
    }
}

/// The bytes a header is written as: the version part (classic files store
/// the song length, at least 1, in its place), counters saturated to their
/// field widths, and the loop settings from version 4 on.
pub open spec fn header_bytes(h: Header) -> Seq<u8> {
    hd_version_bytes(h) + hd_info_bytes(h) + hd_stats_bytes(h) + hd_tail_bytes(h)
}

/// Every text of the header fits the encoder.
pub open spec fn header_texts_fit(h: Header) -> bool {
    &&& text_fits(h.song_name@)
    &&& text_fits(h.song_author@)
    &&& text_fits(h.original_author@)
    &&& text_fits(h.description@)
    &&& text_fits(h.song_origin@)
}

// Header read and write
//
// ++++++++++++============++++++++++++============++++++++++++============

/// Reads the header at `pos`.
pub fn read_header(b: &[u8], pos: &mut usize) -> (r: Result<Header>)
    requires
        b@.len() <= usize::MAX / 4,
    ensures
        r is Ok <==> hd_ok(b@, *old(pos) as int),
        r matches Ok(h) ==> hd_read(b@, *old(pos) as int, h) && *final(pos) == hd_end(b@, *old(pos) as int),
        r matches Err(e) ==> if hd_bad_version(b@, *old(pos) as int) {
            e matches Error::InvalidVersion(s) && s@ == decimal(b@[*old(pos) + 2] as nat)
        } else {
            e is Io
        },
{
    let ghost p = *pos as int;
    let mut header = Header::default();
    let first = read_u16(b, pos)?;
    let version_byte = if first == 0 {
        read_u8(b, pos)?
    } else {
        0
    };
    header.version = Version::new(version_byte)?;
    header.default_instruments = if version_byte == 0 {
        10
    } else {
        read_u8(b, pos)?
    };
    header.song_length = if version_byte >= 3 {
        read_u16(b, pos)? as u32
    } else {
        first as u32
    };
    header.song_layers = read_u16(b, pos)? as u32;
    header.song_name = read_string(b, pos)?;
    header.song_author = read_string(b, pos)?;
    header.original_author = read_string(b, pos)?;
    header.description = read_string(b, pos)?;
    header.tempo = read_u16(b, pos)?;
    header.auto_save = read_bool(b, pos)?;
    header.auto_save_duration = read_u8(b, pos)? as u32;
    header.time_signature = read_u8(b, pos)?;
    header.minutes_spent = read_u32(b, pos)?;
    header.left_clicks = read_u32(b, pos)?;
    header.right_clicks = read_u32(b, pos)?;
    header.blocks_added = read_u32(b, pos)?;
    header.blocks_removed = read_u32(b, pos)?;
    header.song_origin = read_string(b, pos)?;
    if version_byte >= 4 {
        header.is_loop = read_bool(b, pos)?;
        header.max_loop_count = read_u8(b, pos)? as u32;
        header.loop_start = read_u16(b, pos)? as u32;
    }
    Ok(header)
}

/// Writes a header as it stands.
pub fn write_header(out: &mut Vec<u8>, h: &Header)
    requires
        header_texts_fit(*h),
    ensures
        final(out)@ == old(out)@ + header_bytes(*h),
{
    write_version_part(out, h);
    let ghost a = out@;
    write_info_part(out, h);
    let ghost b = out@;
    write_stats_part(out, h);
    let ghost c = out@;
    write_tail_part(out, h);
    proof {
        assert(final(out)@ =~= old(out)@ + header_bytes(*h));
    }
}

fn write_version_part(out: &mut Vec<u8>, h: &Header)
    ensures
        final(out)@ == old(out)@ + hd_version_bytes(*h),
{
    let v = h.version.get();
    if v > 0 {
        write_u16(out, 0);
        write_u8(out, v);
        write_u8(out, h.default_instruments);
    } else {
        let length = if h.song_length == 0 {
            1
        } else {
            h.song_length
        };
        write_u16(out, saturate16(length));
    }
    proof {
        assert(final(out)@ =~= old(out)@ + hd_version_bytes(*h));
    }
}

fn write_info_part(out: &mut Vec<u8>, h: &Header)
    requires
        header_texts_fit(*h),
    ensures
        final(out)@ == old(out)@ + hd_info_bytes(*h),
{
    if h.version.get() >= 3 {
        write_u16(out, saturate16(h.song_length));
    }
    write_u16(out, saturate16(h.song_layers));
    write_string(out, h.song_name.as_str());
    write_string(out, h.song_author.as_str());
    write_string(out, h.original_author.as_str());
    write_string(out, h.description.as_str());
    proof {
        assert(final(out)@ =~= old(out)@ + hd_info_bytes(*h));
    }
}

fn write_stats_part(out: &mut Vec<u8>, h: &Header)
    ensures
        final(out)@ == old(out)@ + hd_stats_bytes(*h),
{
    write_u16(out, h.tempo);
    write_bool(out, h.auto_save);
    write_u8(out, saturate8(h.auto_save_duration));
    write_u8(out, h.time_signature);
    write_u32(out, h.minutes_spent);
    write_u32(out, h.left_clicks);
    write_u32(out, h.right_clicks);
    write_u32(out, h.blocks_added);
    write_u32(out, h.blocks_removed);
    proof {
        assert(final(out)@ =~= old(out)@ + hd_stats_bytes(*h));
    }
}

fn write_tail_part(out: &mut Vec<u8>, h: &Header)
    requires
        text_fits(h.song_origin@),
    ensures
        final(out)@ == old(out)@ + hd_tail_bytes(*h),
{
    write_string(out, h.song_origin.as_str());
    if h.version.get() >= 4 {
        write_bool(out, h.is_loop);
        write_u8(out, saturate8(h.max_loop_count));
        write_u16(out, saturate16(h.loop_start));
    }
    proof {
        assert(final(out)@ =~= old(out)@ + hd_tail_bytes(*h));
    }
}

/// `v` saturated to a `u16`.
pub fn saturate16(v: u32) -> (r: u16)
    ensures
        r == sat16(v),
{
    if v > 65535 {
        65535
    } else {
        v as u16
    }
}

/// `v` saturated to a `u8`.
pub fn saturate8(v: u32) -> (r: u8)
    ensures
        r == sat8(v),
{
    if v > 255 {
        255
    } else {
        v as u8
    }
}

// Header laws
//
// ++++++++++++============++++++++++++============++++++++++++============

/// The text a written text reads back as.
pub open spec fn text_restored(s: Seq<char>) -> Seq<char> {
    windows_1252_decode(string_payload(s))
}

/// `r` is what the written header `h` reads back as: counters saturated to
/// their field widths, texts through the encoder and the decoder, and what
/// the version does not store at its default (a classic file stores the
/// song length, at least 1, in place of the version).
pub open spec fn header_restored(h: Header, r: Header) -> bool {
    let v = h.version.spec_get();
    &&& r.version.spec_get() == v
    &&& r.default_instruments == if v == 0 { 10 } else { h.default_instruments }
    &&& r.song_length == if v >= 3 {
        sat16(h.song_length) as u32
    } else if v == 0 {
        sat16(if h.song_length == 0 { 1 } else { h.song_length }) as u32
    } else {
        0
    }
    &&& r.song_layers == sat16(h.song_layers) as u32
    &&& r.song_name@ == text_restored(h.song_name@)
    &&& r.song_author@ == text_restored(h.song_author@)
    &&& r.original_author@ == text_restored(h.original_author@)
    &&& r.description@ == text_restored(h.description@)
    &&& r.tempo == h.tempo
    &&& r.auto_save == h.auto_save
    &&& r.auto_save_duration == sat8(h.auto_save_duration) as u32
    &&& r.time_signature == h.time_signature
    &&& r.minutes_spent == h.minutes_spent
    &&& r.left_clicks == h.left_clicks
    &&& r.right_clicks == h.right_clicks
    &&& r.blocks_added == h.blocks_added
    &&& r.blocks_removed == h.blocks_removed
    &&& r.song_origin@ == text_restored(h.song_origin@)
    &&& r.is_loop == (v >= 4 && h.is_loop)
    &&& r.max_loop_count == if v >= 4 { sat8(h.max_loop_count) as u32 } else { 0 }
    &&& r.loop_start == if v >= 4 { sat16(h.loop_start) as u32 } else { 0 }
}

#[verifier::spinoff_prover]
#[verifier::rlimit(40)]
proof fn lemma_version_part(b: Seq<u8>, p: int, h: Header)
    requires
        Version::valid_number(h.version.spec_get()),
        holds_at(b, p, hd_version_bytes(h)),
    ensures
        hd_version(b, p) == h.version.spec_get(),
        hd_length_at(b, p) == p + hd_version_bytes(h).len(),
        p + 2 <= b.len(),
        !hd_classic(b, p) ==> p + 3 <= b.len(),
        h.version.spec_get() != 0 ==> hd_fci_at(b, p) + 1 <= b.len() && b[hd_fci_at(b, p)] == h.default_instruments,
        u16_at(b, p) == if h.version.spec_get() > 0 {
            0
        } else {
            sat16(if h.song_length == 0 { 1 } else { h.song_length })
        },
{
    let v = h.version.spec_get();
    if v > 0 {
        lemma_holds_concat(b, p, le16(0), seq![v, h.default_instruments]);
        lemma_u16_roundtrip(b, p, 0);
        assert(b.subrange(p + 2, p + 4)[0] == b[p + 2]);
        assert(b.subrange(p + 2, p + 4)[1] == b[p + 3]);
    } else {
        lemma_u16_roundtrip(b, p, sat16(if h.song_length == 0 { 1 } else { h.song_length }));
    }
}

#[verifier::spinoff_prover]
#[verifier::rlimit(40)]
proof fn lemma_info_part(b: Seq<u8>, p: int, h: Header)
    requires
        hd_version(b, p) == h.version.spec_get(),
        holds_at(b, hd_length_at(b, p), hd_info_bytes(h)),
    ensures
        hd_tempo_at(b, p) == hd_length_at(b, p) + hd_info_bytes(h).len(),
        h.version.spec_get() >= 3 ==> hd_length_at(b, p) + 2 <= b.len() && u16_at(b, hd_length_at(b, p)) == sat16(
            h.song_length,
        ),
        hd_layers_at(b, p) + 2 <= b.len(),
        u16_at(b, hd_layers_at(b, p)) == sat16(h.song_layers),
        str_fits(b, hd_name_at(b, p)),
        str_fits(b, hd_author_at(b, p)),
        str_fits(b, hd_original_at(b, p)),
        str_fits(b, hd_description_at(b, p)),
        str_text(b, hd_name_at(b, p)) == text_restored(h.song_name@),
        str_text(b, hd_author_at(b, p)) == text_restored(h.song_author@),
        str_text(b, hd_original_at(b, p)) == text_restored(h.original_author@),
        str_text(b, hd_description_at(b, p)) == text_restored(h.description@),
{
    let v = h.version.spec_get();
    let pi = hd_length_at(b, p);
    let lb = if v >= 3 { le16(sat16(h.song_length)) } else { Seq::empty() };
    let l2 = le16(sat16(h.song_layers));
    let n1 = string_field(h.song_name@);
    let n2 = string_field(h.song_author@);
    let n3 = string_field(h.original_author@);
    let n4 = string_field(h.description@);
    assert(hd_info_bytes(h) == lb + l2 + n1 + n2 + n3 + n4);
    lemma_holds_concat(b, pi, lb + l2 + n1 + n2 + n3, n4);
    lemma_holds_concat(b, pi, lb + l2 + n1 + n2, n3);
    lemma_holds_concat(b, pi, lb + l2 + n1, n2);
    lemma_holds_concat(b, pi, lb + l2, n1);
    lemma_holds_concat(b, pi, lb, l2);
    if v >= 3 {
        lemma_u16_roundtrip(b, pi, sat16(h.song_length));
    }
    let pl = pi + lb.len();
    lemma_u16_roundtrip(b, pl, sat16(h.song_layers));
    let q1 = pl + 2;
    lemma_string_roundtrip(b, q1, h.song_name@);
    let q2 = q1 + n1.len();
    lemma_string_roundtrip(b, q2, h.song_author@);
    let q3 = q2 + n2.len();
    lemma_string_roundtrip(b, q3, h.original_author@);
    let q4 = q3 + n3.len();
    lemma_string_roundtrip(b, q4, h.description@);
}

#[verifier::spinoff_prover]
#[verifier::rlimit(40)]
proof fn lemma_stats_part(b: Seq<u8>, ps: int, h: Header)
    requires
        holds_at(b, ps, hd_stats_bytes(h)),
    ensures
        ps + 25 <= b.len(),
        u16_at(b, ps) == h.tempo,
        b[ps + 2] == byte_of_bool(h.auto_save),
        b[ps + 3] == sat8(h.auto_save_duration),
        b[ps + 4] == h.time_signature,
        u32_at(b, ps + 5) == h.minutes_spent,
        u32_at(b, ps + 9) == h.left_clicks,
        u32_at(b, ps + 13) == h.right_clicks,
        u32_at(b, ps + 17) == h.blocks_added,
        u32_at(b, ps + 21) == h.blocks_removed,
{
    let st = seq![byte_of_bool(h.auto_save), sat8(h.auto_save_duration), h.time_signature];
    let a = le16(h.tempo) + st;
    let c1 = a + le32(h.minutes_spent);
    let c2 = c1 + le32(h.left_clicks);
    let c3 = c2 + le32(h.right_clicks);
    let c4 = c3 + le32(h.blocks_added);
    assert(hd_stats_bytes(h) == c4 + le32(h.blocks_removed));
    lemma_holds_concat(b, ps, c4, le32(h.blocks_removed));
    lemma_holds_concat(b, ps, c3, le32(h.blocks_added));
    lemma_holds_concat(b, ps, c2, le32(h.right_clicks));
    lemma_holds_concat(b, ps, c1, le32(h.left_clicks));
    lemma_holds_concat(b, ps, a, le32(h.minutes_spent));
    lemma_holds_concat(b, ps, le16(h.tempo), st);
    lemma_u16_roundtrip(b, ps, h.tempo);
    assert(b.subrange(ps + 2, ps + 5)[0] == b[ps + 2]);
    assert(b.subrange(ps + 2, ps + 5)[1] == b[ps + 3]);
    assert(b.subrange(ps + 2, ps + 5)[2] == b[ps + 4]);
    lemma_u32_roundtrip(b, ps + 5, h.minutes_spent);
    lemma_u32_roundtrip(b, ps + 9, h.left_clicks);
    lemma_u32_roundtrip(b, ps + 13, h.right_clicks);
    lemma_u32_roundtrip(b, ps + 17, h.blocks_added);
    lemma_u32_roundtrip(b, ps + 21, h.blocks_removed);
}

#[verifier::spinoff_prover]
#[verifier::rlimit(40)]
proof fn lemma_tail_part(b: Seq<u8>, p: int, h: Header)
    requires
        hd_version(b, p) == h.version.spec_get(),
        holds_at(b, hd_origin_at(b, p), hd_tail_bytes(h)),
    ensures
        str_fits(b, hd_origin_at(b, p)),
        str_text(b, hd_origin_at(b, p)) == text_restored(h.song_origin@),
        hd_end(b, p) == hd_origin_at(b, p) + hd_tail_bytes(h).len(),
        h.version.spec_get() >= 4 ==> hd_loop_at(b, p) + 4 <= b.len() && b[hd_loop_at(b, p)] == byte_of_bool(h.is_loop)
            && b[hd_loop_at(b, p) + 1] == sat8(h.max_loop_count) && u16_at(b, hd_loop_at(b, p) + 2) == sat16(
            h.loop_start,
        ),
{
    let v = h.version.spec_get();
    let pt = hd_origin_at(b, p);
    let o = string_field(h.song_origin@);
    let lp = if v >= 4 {
        seq![byte_of_bool(h.is_loop), sat8(h.max_loop_count)] + le16(sat16(h.loop_start))
    } else {
        Seq::empty()
    };
    assert(hd_tail_bytes(h) == o + lp);
    lemma_holds_concat(b, pt, o, lp);
    lemma_string_roundtrip(b, pt, h.song_origin@);
    let pe = pt + o.len();
    if v >= 4 {
        lemma_holds_concat(b, pe, seq![byte_of_bool(h.is_loop), sat8(h.max_loop_count)], le16(sat16(h.loop_start)));
        assert(b.subrange(pe, pe + 2)[0] == b[pe]);
        assert(b.subrange(pe, pe + 2)[1] == b[pe + 1]);
        lemma_u16_roundtrip(b, pe + 2, sat16(h.loop_start));
    }
}

/// A written header reads completely, ends where it was written to end, and
/// reads back as `header_restored` says.
pub proof fn lemma_header_roundtrip(b: Seq<u8>, p: int, h: Header, r: Header)
    requires
        Version::valid_number(h.version.spec_get()),
        holds_at(b, p, header_bytes(h)),
    ensures
        hd_ok(b, p),
        hd_end(b, p) == p + header_bytes(h).len(),
        hd_version(b, p) == h.version.spec_get(),
        u16_at(b, hd_layers_at(b, p)) == sat16(h.song_layers),
        h.version.spec_get() != 0 ==> b[hd_fci_at(b, p)] == h.default_instruments,
        hd_read(b, p, r) ==> header_restored(h, r),
{
    let vb = hd_version_bytes(h);
    let ib = hd_info_bytes(h);
    let sb = hd_stats_bytes(h);
    let tb = hd_tail_bytes(h);
    assert(header_bytes(h) == vb + ib + sb + tb);
    lemma_holds_concat(b, p, vb + ib + sb, tb);
    lemma_holds_concat(b, p, vb + ib, sb);
    lemma_holds_concat(b, p, vb, ib);
    lemma_version_part(b, p, h);
    lemma_info_part(b, p, h);
    lemma_stats_part(b, p + vb.len() + ib.len(), h);
    lemma_tail_part(b, p, h);
}

// Outcomes
//
// ++++++++++++============++++++++++++============++++++++++++============

/// How reading a part of a file ends.
pub enum Outcome {
    /// The part reads completely and ends at the given position.
    Ends(int),
    /// The input ends within the part.
    Truncated,
    /// A version byte names no supported version.
    BadVersion(u8),
    /// A volume byte lies above 100.
    BadVolume(u8),
    /// A panning byte stands for a panning outside -100..=100.
    BadPanning(int),
}

/// `e` is the error that reports the failed outcome `o`.
pub open spec fn reports(e: Error, o: Outcome) -> bool {
    match o {
        Outcome::Ends(_) => false,
        Outcome::Truncated => e is Io,
        Outcome::BadVersion(v) => e matches Error::InvalidVersion(s) && s@ == decimal(v as nat),
        Outcome::BadVolume(v) => e matches Error::InvalidVolume(s) && s@ == decimal(v as nat),
        Outcome::BadPanning(v) => e matches Error::InvalidPanning(s) && s@ == signed_decimal(v),
    }
}

// Note layout
//
// ++++++++++++============++++++++++++============++++++++++++============

/// The panning a stored panning byte stands for: the byte minus 100, taken
/// as a signed byte.
pub open spec fn panning_of_byte(raw: u8) -> int {
    if raw >= 228 { raw - 356 } else { raw - 100 }
}

/// The number of bytes of a note.
pub open spec fn note_len(v: u8) -> int {
    if v >= 4 { 6 } else { 2 }
}

/// How reading the note at `q` ends in a file of version `v`.
pub open spec fn note_outcome(b: Seq<u8>, q: int, v: u8) -> Outcome {
    if q < 0 || q + 2 > b.len() {
        Outcome::Truncated
    } else if v < 4 {
        Outcome::Ends(q + 2)
    } else if q + 3 > b.len() {
        Outcome::Truncated
    } else if b[q + 2] > 100 {
        Outcome::BadVolume(b[q + 2])
    } else if q + 4 > b.len() {
        Outcome::Truncated
    } else if !(-100 <= panning_of_byte(b[q + 3]) <= 100) {
        Outcome::BadPanning(panning_of_byte(b[q + 3]))
    } else if q + 6 > b.len() {
        Outcome::Truncated
    } else {
        Outcome::Ends(q + 6)
    }
}

/// The instrument stored as `byte` when custom instruments start at `fci`.
pub open spec fn instrument_is(i: Instrument, byte: u8, fci: u8) -> bool {
    if byte < fci {
        spec_vanilla_index(i) == Some(byte)
    } else {
        i == Instrument::Custom((byte - fci) as u8)
    }
}

/// `n` holds the fields of the note at `q`; before version 4 a note stores
/// no volume, panning or pitch and has the defaults.
pub open spec fn note_read(b: Seq<u8>, q: int, v: u8, fci: u8, n: Note) -> bool {
    &&& instrument_is(n.tone.instrument, b[q], fci)
    &&& n.tone.key.spec_value() == b[q + 1]
    &&& n.velocity.spec_get() == if v >= 4 { b[q + 2] } else { 100 }
    &&& n.panning.spec_get() == if v >= 4 { panning_of_byte(b[q + 3]) } else { 0 }
    &&& n.pitch == if v >= 4 { i16_at(b, q + 4) } else { 0 }
}

/// Reads the note at `pos` of a file of version `v` whose custom instruments
/// start at the byte `fci`.
pub fn read_note(b: &[u8], pos: &mut usize, v: u8, fci: u8) -> (r: Result<Note>)
    requires
        fci <= 20,
    ensures
        r is Ok <==> note_outcome(b@, *old(pos) as int, v) is Ends,
        r matches Ok(n) ==> note_read(b@, *old(pos) as int, v, fci, n) && *final(pos) == *old(pos) + note_len(v),
        r matches Err(e) ==> reports(e, note_outcome(b@, *old(pos) as int, v)),
{
    let byte = read_u8(b, pos)?;
    let instrument = if byte < fci {
        match Instrument::from_vanilla_index(byte) {
            Some(i) => i,
            None => Instrument::Harp,
        }
    } else {
        Instrument::Custom(byte - fci)
    };
    let key = Key::new(read_u8(b, pos)?);
    let mut note = Note::new(Tone::new(instrument, key));
    if v >= 4 {
        let velocity = read_u8(b, pos)?;
        note.velocity = Volume::new(velocity)?;
        let raw = read_u8(b, pos)?;
        let value: i8 = if raw >= 228 {
            (raw as i16 - 356) as i8
        } else {
            (raw as i16 - 100) as i8
        };
        note.panning = Panning::new(value)?;
        note.pitch = read_i16(b, pos)?;
    }
    Ok(note)
}

// Note stream layout
//
// ++++++++++++============++++++++++++============++++++++++++============

/// `a` advanced by `j`, wrapping around `u32::MAX`.
pub open spec fn wrap_add(a: u32, j: u32) -> u32 {
    if a + j > u32::MAX { (a + j - 4294967296) as u32 } else { (a + j) as u32 }
}

/// `a` advanced by `j`, wrapping around `u32::MAX`.
pub fn wrapping_advance(a: u32, j: u32) -> (r: u32)
    ensures
        r == wrap_add(a, j),
{
    if j <= 4294967295 - a {
        a + j
    } else {
        j - (4294967295 - a) - 1
    }
}

/// How reading the note stream from `q` ends. The stream is a run of
/// ticks, each a tick jump followed by its notes (each a layer jump and the
/// note) and a 0; a final 0 ends the stream. `in_tick` tells whether `q` is
/// within the notes of a tick.
pub open spec fn stream_outcome(b: Seq<u8>, q: int, v: u8, in_tick: bool) -> Outcome
    decreases b.len() - q,
{
    if q < 0 || q + 2 > b.len() {
        Outcome::Truncated
    } else if !in_tick {
        if u16_at(b, q) == 0 {
            Outcome::Ends(q + 2)
        } else {
            stream_outcome(b, q + 2, v, true)
        }
    } else if u16_at(b, q) == 0 {
        stream_outcome(b, q + 2, v, false)
    } else if note_outcome(b, q + 2, v) is Ends {
        stream_outcome(b, q + 2 + note_len(v), v, true)
    } else {
        note_outcome(b, q + 2, v)
    }
}

/// `s` is the sequence of the positions and notes of the stream from `q`,
/// in the order they are stored, where the tick cursor stands at `tick` and
/// the layer cursor at `layer`; a tick jump advances the tick cursor and
/// resets the layer cursor to `u32::MAX`, and a layer jump advances the
/// layer cursor (both wrap around).
pub open spec fn stream_read(
    b: Seq<u8>,
    q: int,
    v: u8,
    fci: u8,
    in_tick: bool,
    tick: u32,
    layer: u32,
    s: Seq<(Position, Note)>,
) -> bool
    decreases b.len() - q,
{
    if q < 0 || q + 2 > b.len() {
        false
    } else if !in_tick {
        if u16_at(b, q) == 0 {
            s.len() == 0
        } else {
            stream_read(b, q + 2, v, fci, true, wrap_add(tick, u16_at(b, q) as u32), u32::MAX, s)
        }
    } else if u16_at(b, q) == 0 {
        stream_read(b, q + 2, v, fci, false, tick, layer, s)
    } else {
        let l = wrap_add(layer, u16_at(b, q) as u32);
        &&& note_outcome(b, q + 2, v) is Ends
        &&& s.len() > 0
        &&& s[0].0 == Position::spec_at(tick, l)
        &&& note_read(b, q + 2, v, fci, s[0].1)
        &&& stream_read(b, q + 2 + note_len(v), v, fci, true, tick, l, s.drop_first())
    }
}

/// Reads the note stream at `pos` of a file of version `v` whose custom
/// instruments start at `fci`; a later note at the position of an earlier
/// one replaces it.
pub fn read_notes(b: &[u8], pos: &mut usize, v: u8, fci: u8) -> (r: Result<Notes<Note>>)
    requires
        fci <= 20,
    ensures
        r is Ok <==> stream_outcome(b@, *old(pos) as int, v, false) is Ends,
        r matches Ok(ns) ==> {
            &&& ns.wf()
            &&& stream_outcome(b@, *old(pos) as int, v, false) == Outcome::Ends(*final(pos) as int)
            &&& exists|s: Seq<(Position, Note)>|
                stream_read(b@, *old(pos) as int, v, fci, false, u32::MAX, u32::MAX, s) && ns@ == map_of(s)
        },
        r matches Err(e) ==> reports(e, stream_outcome(b@, *old(pos) as int, v, false)),
{
    let ghost p0 = *pos as int;
    if *pos > b.len() {
        return Err(truncated());
    }
    let ghost mut done: Seq<(Position, Note)> = Seq::empty();
    let mut notes: Notes<Note> = Notes::new();
    let mut tick: u32 = 4294967295;
    let mut layer: u32 = 4294967295;
    loop
        invariant
            fci <= 20,
            p0 == *old(pos),
            p0 <= *pos <= b@.len(),
            stream_outcome(b@, p0, v, false) == stream_outcome(b@, *pos as int, v, false),
            forall|rest: Seq<(Position, Note)>|
                #[trigger] stream_read(b@, *pos as int, v, fci, false, tick, layer, rest) ==> stream_read(
                    b@,
                    p0,
                    v,
                    fci,
                    false,
                    u32::MAX,
                    u32::MAX,
                    done + rest,
                ),
            notes.wf(),
            notes@ == map_of(done),
        decreases b@.len() - *pos,
    {
        let ghost before = *pos as int;
        let ghost old_layer_outer = layer;
        let jump = match read_jump(b, pos) {
            Ok(j) => j,
            Err(e) => {
                return Err(e);
            },
        };
        match jump {
            None => {
                proof {
                    assert(stream_read(b@, before, v, fci, false, tick, layer, Seq::empty()));
                    assert(done + Seq::<(Position, Note)>::empty() =~= done);
                }
                return Ok(notes);
            },
            Some(j) => {
                let ghost old_tick = tick;
                tick = wrapping_advance(tick, j);
                layer = 4294967295;
                proof {
                    assert forall|rest: Seq<(Position, Note)>|
                        #[trigger] stream_read(b@, *pos as int, v, fci, true, tick, layer, rest) implies stream_read(
                        b@,
                        p0,
                        v,
                        fci,
                        false,
                        u32::MAX,
                        u32::MAX,
                        done + rest,
                    ) by {
                        assert(stream_read(b@, before, v, fci, false, old_tick, old_layer_outer, rest));
                    }
                }
                loop
                    invariant_except_break
                        stream_outcome(b@, p0, v, false) == stream_outcome(b@, *pos as int, v, true),
                        forall|rest: Seq<(Position, Note)>|
                            #[trigger] stream_read(b@, *pos as int, v, fci, true, tick, layer, rest) ==> stream_read(
                                b@,
                                p0,
                                v,
                                fci,
                                false,
                                u32::MAX,
                                u32::MAX,
                                done + rest,
                            ),
                    invariant
                        fci <= 20,
                        p0 == *old(pos),
                        before + 2 <= *pos <= b@.len(),
                        notes.wf(),
                        notes@ == map_of(done),
                    ensures
                        stream_outcome(b@, p0, v, false) == stream_outcome(b@, *pos as int, v, false),
                        forall|rest: Seq<(Position, Note)>|
                            #[trigger] stream_read(b@, *pos as int, v, fci, false, tick, layer, rest) ==> stream_read(
                                b@,
                                p0,
                                v,
                                fci,
                                false,
                                u32::MAX,
                                u32::MAX,
                                done + rest,
                            ),
                    decreases b@.len() - *pos,
                {
                    let ghost at = *pos as int;
                    let ghost old_layer = layer;
                    let lj = match read_jump(b, pos) {
                        Ok(l) => l,
                        Err(e) => {
                            return Err(e);
                        },
                    };
                    match lj {
                        None => {
                            proof {
                                assert forall|rest: Seq<(Position, Note)>|
                                    #[trigger] stream_read(b@, *pos as int, v, fci, false, tick, layer, rest) implies stream_read(
                                    b@,
                                    p0,
                                    v,
                                    fci,
                                    false,
                                    u32::MAX,
                                    u32::MAX,
                                    done + rest,
                                ) by {
                                    assert(stream_read(b@, at, v, fci, true, tick, layer, rest));
                                }
                            }
                            break;
                        },
                        Some(l) => {
                            layer = wrapping_advance(layer, l);
                            let note_at = *pos;
                            let note = match read_note(b, pos, v, fci) {
                                Ok(n) => n,
                                Err(e) => {
                                    return Err(e);
                                },
                            };
                            let position = Position::new(tick, layer);
                            notes.insert(position, note);
                            proof {
                                let e = (position, note);
                                let old_done = done;
                                done = done.push(e);
                                assert(done.drop_last() =~= old_done);
                                assert forall|rest: Seq<(Position, Note)>|
                                    #[trigger] stream_read(b@, *pos as int, v, fci, true, tick, layer, rest) implies stream_read(
                                    b@,
                                    p0,
                                    v,
                                    fci,
                                    false,
                                    u32::MAX,
                                    u32::MAX,
                                    done + rest,
                                ) by {
                                    let r2 = seq![e] + rest;
                                    assert(r2.drop_first() =~= rest);
                                    assert(r2[0] == e);
                                    assert(stream_read(b@, at, v, fci, true, tick, old_layer, r2));
                                    assert(old_done + r2 =~= done + rest);
                                }
                            }
                        },
                    }
                }
            },
        }
    }
}

// Note writing
//
// ++++++++++++============++++++++++++============++++++++++++============

/// The byte an instrument is stored as when custom instruments start at
/// `fci`: a custom slot counts from `fci` (saturating), a vanilla index
/// below `fci` is itself, anything else is 0.
pub open spec fn instrument_byte(i: Instrument, fci: u8) -> u8 {
    match i {
        Instrument::Custom(slot) => sat_add(fci, slot),
        _ => match spec_vanilla_index(i) {
            Some(k) => if k < fci { k } else { 0 },
            None => 0,
        },
    }
}

/// The byte a panning is stored as.
pub open spec fn panning_byte(p: Panning) -> u8 {
    (p.spec_get() + 100) as u8
}

/// The bytes a note is written as in a file of version `v` whose custom
/// instruments start at `fci`.
pub open spec fn note_bytes(n: Note, v: u8, fci: u8) -> Seq<u8> {
    seq![instrument_byte(encoded_instrument(fci, n.tone.instrument), fci), n.tone.key.spec_value()] + if v >= 4 {
        seq![n.velocity.spec_get(), panning_byte(n.panning)] + le16_signed(n.pitch)
    } else {
        Seq::empty()
    }
}

/// The note holds a volume and a panning of their ranges.
pub open spec fn note_valid(n: Note) -> bool {
    n.velocity.spec_get() <= 100 && -100 <= n.panning.spec_get() <= 100
}

/// The byte of an instrument when custom instruments start at `fci`.
pub fn write_instrument_byte(i: Instrument, fci: u8) -> (r: u8)
    ensures
        r == instrument_byte(i, fci),
{
    match i {
        Instrument::Custom(slot) => if fci as u16 + slot as u16 > 255 {
            255
        } else {
            fci + slot
        },
        inst => match inst.vanilla_index() {
            Some(k) => if k < fci {
                k
            } else {
                0
            },
            None => 0,
        },
    }
}

/// Writes a note of a file of version `v` whose custom instruments start at
/// `fci`, its instrument translated for that file.
pub fn write_note(out: &mut Vec<u8>, n: &Note, v: u8, fci: u8)
    requires
        fci <= 20,
    ensures
        final(out)@ == old(out)@ + note_bytes(*n, v, fci),
        note_valid(*n),
{
    let instrument = encode_instrument(fci, n.tone.instrument);
    write_u8(out, write_instrument_byte(instrument, fci));
    write_u8(out, u8::from(n.tone.key));
    let velocity = n.velocity.get();
    let panning = n.panning.get();
    if v >= 4 {
        write_u8(out, velocity);
        write_u8(out, (panning as i16 + 100) as u8);
        write_i16(out, n.pitch);
    }
    proof {
        assert(final(out)@ =~= old(out)@ + note_bytes(*n, v, fci));
    }
}

// Note stream writing
//
// ++++++++++++============++++++++++++============++++++++++++============

/// `a - b`, wrapping around.
pub open spec fn wrap_sub(a: u32, b: u32) -> u32 {
    if a >= b { (a - b) as u32 } else { (a - b + 4294967296) as u32 }
}

/// The tick before the `i`-th note: that of the previous note, or
/// `u32::MAX` for the first.
pub open spec fn prev_tick(s: Seq<(Position, Note)>, i: int) -> u32 {
    if i == 0 { u32::MAX } else { s[i - 1].0.spec_tick() }
}

/// The `i`-th note opens the notes of its tick.
pub open spec fn opens_tick(s: Seq<(Position, Note)>, i: int) -> bool {
    i == 0 || s[i - 1].0.spec_tick() != s[i].0.spec_tick()
}

/// The `i`-th note closes the notes of its tick.
pub open spec fn closes_tick(s: Seq<(Position, Note)>, i: int) -> bool {
    i + 1 == s.len() || s[i + 1].0.spec_tick() != s[i].0.spec_tick()
}

/// The bytes of the `i`-th note in the stream: the tick jump where the tick
/// changes, the layer jump from the previous note of the tick (or from
/// `u32::MAX`), the note, and a 0 after the last note of a tick.
pub open spec fn note_chunk(s: Seq<(Position, Note)>, i: int, v: u8, fci: u8) -> Seq<u8> {
    let pos = s[i].0;
    let prev_layer = if opens_tick(s, i) { u32::MAX } else { s[i - 1].0.spec_layer() };
    (if pos.spec_tick() != prev_tick(s, i) {
        jump_field(wrap_sub(pos.spec_tick(), prev_tick(s, i)))
    } else {
        Seq::empty()
    }) + jump_field(wrap_sub(pos.spec_layer(), prev_layer)) + note_bytes(s[i].1, v, fci) + if closes_tick(s, i) {
        jump_field(0)
    } else {
        Seq::empty()
    }
}

/// The bytes of the first `n` notes of the stream.
pub open spec fn note_chunks(s: Seq<(Position, Note)>, n: int, v: u8, fci: u8) -> Seq<u8>
    decreases n,
{
    if n <= 0 {
        Seq::empty()
    } else {
        note_chunks(s, n - 1, v, fci) + note_chunk(s, n - 1, v, fci)
    }
}

/// The bytes the notes `s` (in position order) are written as: their chunks
/// and a final 0.
pub open spec fn stream_bytes(s: Seq<(Position, Note)>, v: u8, fci: u8) -> Seq<u8> {
    note_chunks(s, s.len() as int, v, fci) + jump_field(0)
}

/// `a - b`, wrapping around.
pub fn wrapping_back(a: u32, b: u32) -> (r: u32)
    ensures
        r == wrap_sub(a, b),
{
    if a >= b {
        a - b
    } else {
        a + (4294967295 - b) + 1
    }
}

/// Writes the chunk of the `i`-th note, given the cursors the previous
/// chunks left, and returns the cursors after it.
fn write_chunk(out: &mut Vec<u8>, notes: &Notes<Note>, i: usize, prev_t: u32, prev_l: u32, v: u8, fci: u8) -> (r: (
    u32,
    u32,
))
    requires
        fci <= 20,
        i < notes.entries().len(),
        prev_t == prev_tick(notes.entries(), i as int),
        prev_l == if opens_tick(notes.entries(), i as int) {
            u32::MAX
        } else {
            notes.entries()[i - 1].0.spec_layer()
        },
    ensures
        final(out)@ == old(out)@ + note_chunk(notes.entries(), i as int, v, fci),
        note_valid(notes.entries()[i as int].1),
        r.0 == prev_tick(notes.entries(), i + 1),
        r.1 == if closes_tick(notes.entries(), i as int) {
            u32::MAX
        } else {
            notes.entries()[i as int].0.spec_layer()
        },
{
    let ghost s = notes.entries();
    let (pos, note) = notes.entry_at(i);
    if pos.tick() != prev_t {
        write_jump(out, wrapping_back(pos.tick(), prev_t));
    }
    let ghost a = out@;
    write_jump(out, wrapping_back(pos.layer(), prev_l));
    let ghost c = out@;
    write_note(out, note, v, fci);
    let ghost d = out@;
    let n = notes.len();
    let closes = i + 1 == n || notes.position_at(i + 1).tick() != pos.tick();
    let mut layer = pos.layer();
    if closes {
        write_jump(out, 0);
        layer = 4294967295;
    }
    proof {
        assert(closes == closes_tick(s, i as int));
        assert(final(out)@ =~= old(out)@ + note_chunk(s, i as int, v, fci));
    }
    (pos.tick(), layer)
}

/// Writes the notes as a stream of a file of version `v` whose custom
/// instruments start at `fci`.
pub fn write_notes(out: &mut Vec<u8>, notes: &Notes<Note>, v: u8, fci: u8)
    requires
        fci <= 20,
    ensures
        final(out)@ == old(out)@ + stream_bytes(notes.entries(), v, fci),
        forall|i: int| 0 <= i < notes.entries().len() ==> note_valid(#[trigger] notes.entries()[i].1),
{
    let ghost s = notes.entries();
    let n = notes.len();
    let mut prev_t: u32 = 4294967295;
    let mut prev_l: u32 = 4294967295;
    let mut i: usize = 0;
    while i < n
        invariant
            fci <= 20,
            n == s.len(),
            s == notes.entries(),
            i <= n,
            out@ == old(out)@ + note_chunks(s, i as int, v, fci),
            prev_t == prev_tick(s, i as int),
            i < n ==> prev_l == if opens_tick(s, i as int) { u32::MAX } else { s[i - 1].0.spec_layer() },
            forall|q: int| 0 <= q < i ==> note_valid(#[trigger] s[q].1),
        decreases n - i,
    {
        let ghost before = out@;
        let (t, l) = write_chunk(out, notes, i, prev_t, prev_l, v, fci);
        prev_t = t;
        prev_l = l;
        proof {
            assert(note_chunks(s, i + 1, v, fci) == note_chunks(s, i as int, v, fci) + note_chunk(s, i as int, v, fci));
            assert(out@ =~= old(out)@ + note_chunks(s, i + 1, v, fci));
            if i + 1 < n {
                assert(opens_tick(s, i + 1) == closes_tick(s, i as int));
            }
        }
        i = i + 1;
    }
    write_jump(out, 0);
    proof {
        assert(final(out)@ =~= old(out)@ + stream_bytes(s, v, fci));
    }
}

// Layers and custom instruments
//
// ++++++++++++============++++++++++++============++++++++++++============

/// Where the volume of the layer at `q` stands.
pub open spec fn layer_volume_at(b: Seq<u8>, q: int, v: u8) -> int {
    str_end(b, q) + if v >= 4 { 1int } else { 0int }
}

/// Where the layer at `q` ends.
pub open spec fn layer_end(b: Seq<u8>, q: int, v: u8) -> int {
    layer_volume_at(b, q, v) + 1 + if v >= 2 { 1int } else { 0int }
}

/// How reading the layer at `q` of a file of version `v` ends.
pub open spec fn layer_outcome(b: Seq<u8>, q: int, v: u8) -> Outcome {
    let vq = layer_volume_at(b, q, v);
    if !(0 <= q && str_fits(b, q)) || vq + 1 > b.len() {
        Outcome::Truncated
    } else if b[vq] > 100 {
        Outcome::BadVolume(b[vq])
    } else if v < 2 {
        Outcome::Ends(vq + 1)
    } else if vq + 2 > b.len() {
        Outcome::Truncated
    } else if !(-100 <= panning_of_byte(b[vq + 1]) <= 100) {
        Outcome::BadPanning(panning_of_byte(b[vq + 1]))
    } else {
        Outcome::Ends(vq + 2)
    }
}

/// `l` holds the fields of the layer at `q`; what the version does not
/// store keeps its default.
pub open spec fn layer_read(b: Seq<u8>, q: int, v: u8, l: Layer) -> bool {
    let vq = layer_volume_at(b, q, v);
    &&& l.name@ == str_text(b, q)
    &&& l.lock == (v >= 4 && b[str_end(b, q)] == 1)
    &&& l.volume.spec_get() == b[vq]
    &&& l.panning.spec_get() == if v >= 2 { panning_of_byte(b[vq + 1]) } else { 0 }
}

/// How reading `n` layers from `q` ends.
pub open spec fn layers_outcome(b: Seq<u8>, q: int, v: u8, n: nat) -> Outcome
    decreases n,
{
    if n == 0 {
        Outcome::Ends(q)
    } else if layer_outcome(b, q, v) is Ends {
        layers_outcome(b, layer_end(b, q, v), v, (n - 1) as nat)
    } else {
        layer_outcome(b, q, v)
    }
}

/// `ls` holds the layers stored from `q` on, one after the other.
pub open spec fn layers_read(b: Seq<u8>, q: int, v: u8, ls: Seq<Layer>) -> bool
    decreases ls.len(),
{
    if ls.len() == 0 {
        true
    } else {
        layer_read(b, q, v, ls[0]) && layers_read(b, layer_end(b, q, v), v, ls.drop_first())
    }
}

/// Where the custom instrument at `q` ends.
pub open spec fn custom_end(b: Seq<u8>, q: int) -> int {
    str_end(b, str_end(b, q)) + 2
}

/// How reading the custom instrument at `q` ends.
pub open spec fn custom_outcome(b: Seq<u8>, q: int) -> Outcome {
    if 0 <= q && str_fits(b, q) && str_fits(b, str_end(b, q)) && custom_end(b, q) <= b.len() {
        Outcome::Ends(custom_end(b, q))
    } else {
        Outcome::Truncated
    }
}

/// `c` holds the fields of the custom instrument at `q`.
pub open spec fn custom_read(b: Seq<u8>, q: int, c: CustomInstrument) -> bool {
    let e = str_end(b, str_end(b, q));
    &&& c.name@ == str_text(b, q)
    &&& c.file@ == str_text(b, str_end(b, q))
    &&& c.pitch == b[e]
    &&& c.press_key == (b[e + 1] == 1)
}

/// How reading `n` custom instruments from `q` ends.
pub open spec fn customs_outcome(b: Seq<u8>, q: int, n: nat) -> Outcome
    decreases n,
{
    if n == 0 {
        Outcome::Ends(q)
    } else if custom_outcome(b, q) is Ends {
        customs_outcome(b, custom_end(b, q), (n - 1) as nat)
    } else {
        custom_outcome(b, q)
    }
}

/// `cs` holds the custom instruments stored from `q` on.
pub open spec fn customs_read(b: Seq<u8>, q: int, cs: Seq<CustomInstrument>) -> bool
    decreases cs.len(),
{
    if cs.len() == 0 {
        true
    } else {
        custom_read(b, q, cs[0]) && customs_read(b, custom_end(b, q), cs.drop_first())
    }
}

/// Reads the layer at `pos` of a file of version `v`.
pub fn read_layer(b: &[u8], pos: &mut usize, v: u8) -> (r: Result<Layer>)
    requires
        b@.len() <= usize::MAX / 4,
    ensures
        r is Ok <==> layer_outcome(b@, *old(pos) as int, v) is Ends,
        r matches Ok(l) ==> layer_read(b@, *old(pos) as int, v, l) && *final(pos) == layer_end(b@, *old(pos) as int, v),
        r matches Err(e) ==> reports(e, layer_outcome(b@, *old(pos) as int, v)),
{
    let mut layer = Layer::default();
    layer.name = read_string(b, pos)?;
    if v >= 4 {
        layer.lock = read_bool(b, pos)?;
    }
    layer.volume = Volume::new(read_u8(b, pos)?)?;
    if v >= 2 {
        let raw = read_u8(b, pos)?;
        let value: i8 = if raw >= 228 {
            (raw as i16 - 356) as i8
        } else {
            (raw as i16 - 100) as i8
        };
        layer.panning = Panning::new(value)?;
    }
    Ok(layer)
}

/// Reads the custom instrument at `pos`.
pub fn read_custom(b: &[u8], pos: &mut usize) -> (r: Result<CustomInstrument>)
    requires
        b@.len() <= usize::MAX / 4,
    ensures
        r is Ok <==> custom_outcome(b@, *old(pos) as int) is Ends,
        r matches Ok(c) ==> custom_read(b@, *old(pos) as int, c) && *final(pos) == custom_end(b@, *old(pos) as int),
        r matches Err(e) ==> e is Io,
{
    let mut instrument = CustomInstrument::default();
    instrument.name = read_string(b, pos)?;
    instrument.file = read_string(b, pos)?;
    instrument.pitch = read_u8(b, pos)?;
    instrument.press_key = read_bool(b, pos)?;
    Ok(instrument)
}

/// Reads `count` layers from `pos`.
pub fn read_layers(b: &[u8], pos: &mut usize, v: u8, count: u32) -> (r: Result<Vec<Layer>>)
    requires
        b@.len() <= usize::MAX / 4,
    ensures
        r is Ok <==> layers_outcome(b@, *old(pos) as int, v, count as nat) is Ends,
        r matches Ok(ls) ==> ls@.len() == count && layers_read(b@, *old(pos) as int, v, ls@)
            && layers_outcome(b@, *old(pos) as int, v, count as nat) == Outcome::Ends(*final(pos) as int),
        r matches Err(e) ==> reports(e, layers_outcome(b@, *old(pos) as int, v, count as nat)),
{
    let ghost p0 = *pos as int;
    let mut layers: Vec<Layer> = Vec::new();
    let mut k: u32 = 0;
    while k < count
        invariant
            b@.len() <= usize::MAX / 4,
            p0 == *old(pos),
            k <= count,
            layers@.len() == k,
            layers_outcome(b@, p0, v, count as nat) == layers_outcome(b@, *pos as int, v, (count - k) as nat),
            forall|rest: Seq<Layer>|
                #[trigger] layers_read(b@, *pos as int, v, rest) ==> layers_read(b@, p0, v, layers@ + rest),
        decreases count - k,
    {
        let ghost at = *pos as int;
        let layer = read_layer(b, pos, v)?;
        let ghost before = layers@;
        layers.push(layer);
        proof {
            assert forall|rest: Seq<Layer>| #[trigger] layers_read(b@, *pos as int, v, rest) implies layers_read(
                b@,
                p0,
                v,
                layers@ + rest,
            ) by {
                let r2 = seq![layer] + rest;
                assert(r2.drop_first() =~= rest);
                assert(layers_read(b@, at, v, r2));
                assert(before + r2 =~= layers@ + rest);
            }
        }
        k = k + 1;
    }
    proof {
        assert(layers_read(b@, *pos as int, v, Seq::empty()));
        assert(layers@ + Seq::<Layer>::empty() =~= layers@);
    }
    Ok(layers)
}

/// Reads `count` custom instruments from `pos`.
pub fn read_customs(b: &[u8], pos: &mut usize, count: u8) -> (r: Result<Vec<CustomInstrument>>)
    requires
        b@.len() <= usize::MAX / 4,
    ensures
        r is Ok <==> customs_outcome(b@, *old(pos) as int, count as nat) is Ends,
        r matches Ok(cs) ==> cs@.len() == count && customs_read(b@, *old(pos) as int, cs@)
            && customs_outcome(b@, *old(pos) as int, count as nat) == Outcome::Ends(*final(pos) as int),
        r matches Err(e) ==> reports(e, customs_outcome(b@, *old(pos) as int, count as nat)),
{
    let ghost p0 = *pos as int;
    let mut customs: Vec<CustomInstrument> = Vec::new();
    let mut k: u8 = 0;
    while k < count
        invariant
            b@.len() <= usize::MAX / 4,
            p0 == *old(pos),
            k <= count,
            customs@.len() == k,
            customs_outcome(b@, p0, count as nat) == customs_outcome(b@, *pos as int, (count - k) as nat),
            forall|rest: Seq<CustomInstrument>|
                #[trigger] customs_read(b@, *pos as int, rest) ==> customs_read(b@, p0, customs@ + rest),
        decreases count - k,
    {
        let ghost at = *pos as int;
        let custom = read_custom(b, pos)?;
        let ghost before = customs@;
        customs.push(custom);
        proof {
            assert forall|rest: Seq<CustomInstrument>| #[trigger] customs_read(b@, *pos as int, rest) implies customs_read(
                b@,
                p0,
                customs@ + rest,
            ) by {
                let r2 = seq![custom] + rest;
                assert(r2.drop_first() =~= rest);
                assert(customs_read(b@, at, r2));
                assert(before + r2 =~= customs@ + rest);
            }
        }
        k = k + 1;
    }
    proof {
        assert(customs_read(b@, *pos as int, Seq::empty()));
        assert(customs@ + Seq::<CustomInstrument>::empty() =~= customs@);
    }
    Ok(customs)
}

// Song
//
// ++++++++++++============++++++++++++============++++++++++++============

/// The count of vanilla instruments a file declares.
pub open spec fn declared_fci(b: Seq<u8>) -> u8 {
    if hd_version(b, 0) == 0 { 10 } else { b[hd_fci_at(b, 0)] }
}

/// The file declares at most the 20 vanilla instruments there are.
pub open spec fn declares_known_instruments(b: Seq<u8>) -> bool {
    hd_ok(b, 0) ==> declared_fci(b) <= 20
}

/// The position an outcome ends at.
pub open spec fn end_of(o: Outcome) -> int {
    match o {
        Outcome::Ends(e) => e,
        _ => 0,
    }
}

/// Where the note stream of the file ends.
pub open spec fn notes_end(b: Seq<u8>) -> int {
    end_of(stream_outcome(b, hd_end(b, 0), hd_version(b, 0), false))
}

/// Where the layers of the file end (and the custom instrument count
/// stands).
pub open spec fn layers_end(b: Seq<u8>) -> int {
    end_of(layers_outcome(b, notes_end(b), hd_version(b, 0), u16_at(b, hd_layers_at(b, 0)) as nat))
}

/// How reading a whole file ends: header, note stream, as many layers as
/// the header counts, then a count byte and that many custom instruments.
pub open spec fn song_outcome(b: Seq<u8>) -> Outcome {
    let v = hd_version(b, 0);
    let so = stream_outcome(b, hd_end(b, 0), v, false);
    let lo = layers_outcome(b, notes_end(b), v, u16_at(b, hd_layers_at(b, 0)) as nat);
    if !hd_ok(b, 0) {
        if hd_bad_version(b, 0) {
            Outcome::BadVersion(b[2])
        } else {
            Outcome::Truncated
        }
    } else if !(so is Ends) {
        so
    } else if !(lo is Ends) {
        lo
    } else if layers_end(b) + 1 > b.len() {
        Outcome::Truncated
    } else {
        customs_outcome(b, layers_end(b) + 1, b[layers_end(b)] as nat)
    }
}

/// `song` is what the file reads as: its header, its layers, and its notes
/// and custom instruments with the preset entries of the header's version
/// folded back into vanilla instruments.
pub open spec fn song_read(b: Seq<u8>, song: Song) -> bool {
    let v = hd_version(b, 0);
    let fci = Version::spec_vanilla_instruments(v);
    exists|s: Seq<(Position, Note)>, cs: Seq<CustomInstrument>|
        {
            &&& hd_read(b, 0, song.header)
            &&& stream_read(b, hd_end(b, 0), v, declared_fci(b), false, u32::MAX, u32::MAX, s)
            &&& song.layers@.len() == u16_at(b, hd_layers_at(b, 0))
            &&& layers_read(b, notes_end(b), v, song.layers@)
            &&& cs.len() == b[layers_end(b)]
            &&& customs_read(b, layers_end(b) + 1, cs)
            &&& song.custom_instruments@ == kept_entries(fci, cs)
            &&& song.notes@ == map_of(s).map_values(|n: Note| folded_note(fci, cs, n))
        }
}

impl Song {
    /// Parses a complete song from the bytes of an NBS file (trailing bytes
    /// are ignored).
    pub fn parse(bytes: &[u8]) -> (r: Result<Song>)
        requires
            bytes@.len() <= usize::MAX / 4,
            declares_known_instruments(bytes@),
        ensures
            r is Ok <==> song_outcome(bytes@) is Ends,
            r matches Ok(song) ==> song.notes.wf() && song_read(bytes@, song),
            r matches Err(e) ==> reports(e, song_outcome(bytes@)),
    {
        let b = bytes;
        let mut pos: usize = 0;
        let header = match read_header(b, &mut pos) {
            Ok(h) => h,
            Err(e) => {
                proof {
                    if hd_bad_version(b@, 0) {
                        assert(song_outcome(b@) == Outcome::BadVersion(b@[2]));
                    }
                }
                return Err(e);
            },
        };
        let v = header.version.get();
        let ghost p1 = pos as int;
        let notes = read_notes(b, &mut pos, v, header.default_instruments)?;
        let ghost p2 = pos as int;
        let layers = read_layers(b, &mut pos, v, header.song_layers)?;
        let ghost p3 = pos as int;
        let count = read_u8(b, &mut pos)?;
        let customs = read_customs(b, &mut pos, count)?;
        let fci = header.version.vanilla_instruments();
        let ghost raw_customs = customs@;
        let ghost raw_entries = notes.entries();
        let (notes, customs) = fold_preset_instruments(fci, notes, customs);
        proof {
            lemma_map_of_values(raw_entries, notes.entries(), |n: Note| folded_note(fci, raw_customs, n));
        }
        let song = Song { header, notes, layers, custom_instruments: customs };
        proof {
            let s = choose|s: Seq<(Position, Note)>|
                stream_read(b@, p1, v, declared_fci(b@), false, u32::MAX, u32::MAX, s) && map_of(raw_entries) == map_of(s);
            assert(song.notes@ == map_of(s).map_values(|n: Note| folded_note(fci, raw_customs, n)));
        }
        Ok(song)
    }
}

// Song writing
//
// ++++++++++++============++++++++++++============++++++++++++============

/// The bytes a layer is written as in a file of version `v`.
pub open spec fn layer_bytes(l: Layer, v: u8) -> Seq<u8> {
    string_field(l.name@) + (if v >= 4 { seq![byte_of_bool(l.lock)] } else { Seq::empty() }) + seq![
        l.volume.spec_get(),
    ] + if v >= 2 { seq![panning_byte(l.panning)] } else { Seq::empty() }
}

/// The bytes of the first `n` layers.
pub open spec fn layers_bytes(ls: Seq<Layer>, n: int, v: u8) -> Seq<u8>
    decreases n,
{
    if n <= 0 {
        Seq::empty()
    } else {
        layers_bytes(ls, n - 1, v) + layer_bytes(ls[n - 1], v)
    }
}

/// The bytes of a custom instrument entry.
pub open spec fn entry_bytes(name: Seq<char>, file: Seq<char>, pitch: u8, press_key: bool) -> Seq<u8> {
    string_field(name) + string_field(file) + seq![pitch, byte_of_bool(press_key)]
}

/// The bytes of the `j`-th entry of the custom table of a file whose custom
/// instruments start at `fci`: the presets, then the song's entries.
pub open spec fn table_entry_bytes(fci: u8, cs: Seq<CustomInstrument>, j: int) -> Seq<u8> {
    if j < 20 - fci {
        entry_bytes(preset_definition(fci + j).0, preset_definition(fci + j).1, 45, true)
    } else {
        let c = cs[j - (20 - fci)];
        entry_bytes(c.name@, c.file@, c.pitch, c.press_key)
    }
}

/// The bytes of the first `n` entries of the custom table.
pub open spec fn table_bytes(fci: u8, cs: Seq<CustomInstrument>, n: int) -> Seq<u8>
    decreases n,
{
    if n <= 0 {
        Seq::empty()
    } else {
        table_bytes(fci, cs, n - 1) + table_entry_bytes(fci, cs, n - 1)
    }
}

/// The number of custom table entries written: the presets and the song's
/// entries, at most 255.
pub open spec fn table_count(fci: u8, cs: Seq<CustomInstrument>) -> int {
    if 20 - fci + cs.len() > 255 { 255 } else { 20 - fci + cs.len() }
}

/// The header a song is written with: its song length is the last note's
/// tick (1 without notes), its layer count that of its layers (wrapping to
/// 32 bits), its vanilla count that of its version.
pub open spec fn written_header(song: Song) -> Header {
    let s = song.notes.entries();
    Header {
        song_length: if s.len() == 0 { 1 } else { s.last().0.spec_tick() },
        song_layers: song.layers@.len() as u32,
        default_instruments: Version::spec_vanilla_instruments(song.header.version.spec_get()),
        ..song.header
    }
}

/// The bytes a song is written as.
pub open spec fn song_bytes(song: Song) -> Seq<u8> {
    let v = song.header.version.spec_get();
    let fci = Version::spec_vanilla_instruments(v);
    let count = table_count(fci, song.custom_instruments@);
    header_bytes(written_header(song)) + stream_bytes(song.notes.entries(), v, fci) + layers_bytes(
        song.layers@,
        song.layers@.len() as int,
        v,
    ) + seq![count as u8] + table_bytes(fci, song.custom_instruments@, count)
}

/// Every text of the song fits the encoder.
pub open spec fn song_texts_fit(song: Song) -> bool {
    &&& header_texts_fit(song.header)
    &&& forall|i: int| 0 <= i < song.layers@.len() ==> text_fits(#[trigger] song.layers@[i].name@)
    &&& forall|i: int|
        0 <= i < song.custom_instruments@.len() ==> text_fits((#[trigger] song.custom_instruments@[i]).name@)
            && text_fits(song.custom_instruments@[i].file@)
}

/// Writes a layer of a file of version `v`.
pub fn write_layer(out: &mut Vec<u8>, l: &Layer, v: u8)
    requires
        text_fits(l.name@),
    ensures
        final(out)@ == old(out)@ + layer_bytes(*l, v),
{
    write_string(out, l.name.as_str());
    if v >= 4 {
        write_bool(out, l.lock);
    }
    write_u8(out, l.volume.get());
    if v >= 2 {
        let p = l.panning.get();
        write_u8(out, (p as i16 + 100) as u8);
    }
    proof {
        assert(final(out)@ =~= old(out)@ + layer_bytes(*l, v));
    }
}

/// Writes a custom instrument entry.
pub fn write_entry(out: &mut Vec<u8>, name: &str, file: &str, pitch: u8, press_key: bool)
    requires
        text_fits(name@),
        text_fits(file@),
    ensures
        final(out)@ == old(out)@ + entry_bytes(name@, file@, pitch, press_key),
{
    write_string(out, name);
    write_string(out, file);
    write_u8(out, pitch);
    write_bool(out, press_key);
    proof {
        assert(final(out)@ =~= old(out)@ + entry_bytes(name@, file@, pitch, press_key));
    }
}

/// Writes the layers of a file of version `v`.
fn write_layers(out: &mut Vec<u8>, layers: &Vec<Layer>, v: u8)
    requires
        forall|q: int| 0 <= q < layers@.len() ==> text_fits(#[trigger] layers@[q].name@),
    ensures
        final(out)@ == old(out)@ + layers_bytes(layers@, layers@.len() as int, v),
{
    let mut i: usize = 0;
    while i < layers.len()
        invariant
            forall|q: int| 0 <= q < layers@.len() ==> text_fits(#[trigger] layers@[q].name@),
            i <= layers@.len(),
            out@ == old(out)@ + layers_bytes(layers@, i as int, v),
        decreases layers@.len() - i,
    {
        write_layer(out, &layers[i], v);
        proof {
            assert(out@ =~= old(out)@ + layers_bytes(layers@, i + 1, v));
        }
        i = i + 1;
    }
}

/// Writes the custom table of a file whose custom instruments start at
/// `fci`: the count, then the presets and the song's entries, at most 255.
fn write_table(out: &mut Vec<u8>, fci: u8, customs: &Vec<CustomInstrument>)
    requires
        fci <= 20,
        forall|q: int|
            0 <= q < customs@.len() ==> text_fits((#[trigger] customs@[q]).name@) && text_fits(customs@[q].file@),
    ensures
        final(out)@ == old(out)@ + seq![table_count(fci, customs@) as u8] + table_bytes(
            fci,
            customs@,
            table_count(fci, customs@),
        ),
{
    let presets = preset_definitions(fci);
    let count: usize = if customs.len() > 255 - presets.len() {
        255
    } else {
        presets.len() + customs.len()
    };
    write_u8(out, count as u8);
    let ghost after_count = out@;
    let mut j: usize = 0;
    while j < count
        invariant
            fci <= 20,
            is_preset_table(fci, presets@),
            count == table_count(fci, customs@),
            forall|q: int|
                0 <= q < customs@.len() ==> text_fits((#[trigger] customs@[q]).name@) && text_fits(customs@[q].file@),
            j <= count,
            out@ == after_count + table_bytes(fci, customs@, j as int),
        decreases count - j,
    {
        if j < presets.len() {
            let e = &presets[j];
            proof {
                lemma_definition_text(spec_vanilla_at((fci + j) as u8).unwrap());
            }
            write_entry(out, e.name.as_str(), e.file.as_str(), e.pitch, e.press_key);
        } else {
            let c = &customs[j - presets.len()];
            write_entry(out, c.name.as_str(), c.file.as_str(), c.pitch, c.press_key);
        }
        proof {
            assert(out@ =~= after_count + table_bytes(fci, customs@, j + 1));
        }
        j = j + 1;
    }
}

impl Song {
    /// The header the song is written with.
    fn written_header_of(&self) -> (r: Header)
        ensures
            r == written_header(*self),
    {
        let fci = self.header.version.vanilla_instruments();
        let song_length = match self.notes.last_key_value() {
            Some((p, _)) => p.tick(),
            None => 1,
        };
        Header {
            song_length,
            song_layers: self.layers.len() as u32,
            default_instruments: fci,
            song_name: self.header.song_name.clone(),
            song_author: self.header.song_author.clone(),
            original_author: self.header.original_author.clone(),
            description: self.header.description.clone(),
            song_origin: self.header.song_origin.clone(),
            ..self.header
        }
    }

    /// The bytes of the song as an NBS file of its header's version, with
    /// the song length, layer count and vanilla count derived from the song,
    /// vanilla instruments the version cannot store written as presets at
    /// the head of the custom table, and at most 255 table entries. The song
    /// itself is not changed.
    pub fn write(&self) -> (r: Vec<u8>)
        requires
            song_texts_fit(*self),
        ensures
            r@ == song_bytes(*self),
    {
        let mut out: Vec<u8> = Vec::new();
        let v = self.header.version.get();
        let fci = self.header.version.vanilla_instruments();
        let header = self.written_header_of();
        write_header(&mut out, &header);
        let ghost a = out@;
        write_notes(&mut out, &self.notes, v, fci);
        let ghost b = out@;
        write_layers(&mut out, &self.layers, v);
        let ghost c = out@;
        write_table(&mut out, fci, &self.custom_instruments);
        proof {
            assert(out@ =~= song_bytes(*self));
        }
        out
    }
}

} // verus!
