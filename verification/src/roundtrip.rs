//! What a read gives back of a write: each part of a written file reads
//! completely, and reads back as the written value up to the documented
//! normalizations.

use crate::bytes::{byte_of_bool, lemma_string_roundtrip, string_field, string_payload, holds_at, jump_field, le16, lemma_holds_concat, lemma_i16_roundtrip, lemma_u16_roundtrip, u16_at};
use crate::codec::{
    custom_end, custom_outcome, custom_read, customs_outcome, customs_read, entry_bytes, layer_bytes, layer_end,
    layer_outcome, layer_read, layers_bytes, layers_outcome, layers_read, str_end, str_text, table_bytes,
    table_entry_bytes, text_restored, declared_fci, declares_known_instruments, header_restored, hd_end, hd_fci_at,
    hd_layers_at, hd_read, hd_version, layers_end, lemma_header_roundtrip, notes_end, sat16, song_bytes, song_outcome,
    song_read, table_count, written_header, header_bytes,
    closes_tick, instrument_byte, instrument_is, note_bytes, note_chunk, note_chunks, note_len, note_outcome,
    note_read, note_valid, opens_tick, panning_byte, panning_of_byte, prev_tick, stream_bytes, stream_outcome,
    stream_read, wrap_add, wrap_sub, Outcome,
};
use crate::note::{
    lemma_definitions_distinct, lemma_vanilla_at, spec_nbs_definition, spec_vanilla_at, spec_vanilla_index, Instrument,
    Note,
};
use crate::song::{CustomInstrument, Header, Layer, Song};
use crate::translate::{
    encoded_instrument, fold_target, folded_instrument, kept_entries, preset_definition, preset_from, presets_below,
};
use crate::notes::{lemma_map_of_at, lemma_map_of_dom, map_of, sorted_positions};
use crate::types::{Position, Version};
use crate::translate::folded_note;
use vstd::prelude::*;

verus! {

broadcast use {Position::lemma_at_fields, Position::lemma_at_of};

// Notes
//
// ++++++++++++============++++++++++++============++++++++++++============

/// `r` is what the written note `n` reads back as from a file of version `v`
/// whose custom instruments start at `fci`: its instrument is the one its
/// stored byte names, its key is kept, and so are its volume, panning and
/// pitch from version 4 on (before, they read as the defaults).
pub open spec fn note_reread(n: Note, r: Note, v: u8, fci: u8) -> bool {
    &&& instrument_is(r.tone.instrument, instrument_byte(encoded_instrument(fci, n.tone.instrument), fci), fci)
    &&& r.tone.key.spec_value() == n.tone.key.spec_value()
    &&& r.velocity.spec_get() == if v >= 4 { n.velocity.spec_get() } else { 100 }
    &&& r.panning.spec_get() == if v >= 4 { n.panning.spec_get() as int } else { 0 }
    &&& r.pitch == if v >= 4 { n.pitch } else { 0 }
}

/// A written note reads completely and reads back as `note_reread` says.
#[verifier::spinoff_prover]
#[verifier::rlimit(50)]
pub proof fn lemma_note_roundtrip(b: Seq<u8>, q: int, n: Note, v: u8, fci: u8, r: Note)
    requires
        note_valid(n),
        holds_at(b, q, note_bytes(n, v, fci)),
    ensures
        note_outcome(b, q, v) == Outcome::Ends(q + note_len(v)),
        note_bytes(n, v, fci).len() == note_len(v),
        note_read(b, q, v, fci, r) ==> note_reread(n, r, v, fci),
{
    let head = seq![instrument_byte(encoded_instrument(fci, n.tone.instrument), fci), n.tone.key.spec_value()];
    let tail = if v >= 4 {
        seq![n.velocity.spec_get(), panning_byte(n.panning)] + crate::bytes::le16_signed(n.pitch)
    } else {
        Seq::empty()
    };
    assert(note_bytes(n, v, fci) == head + tail);
    lemma_holds_concat(b, q, head, tail);
    assert(b.subrange(q, q + 2)[0] == b[q]);
    assert(b.subrange(q, q + 2)[1] == b[q + 1]);
    if v >= 4 {
        lemma_holds_concat(
            b,
            q + 2,
            seq![n.velocity.spec_get(), panning_byte(n.panning)],
            crate::bytes::le16_signed(n.pitch),
        );
        assert(b.subrange(q + 2, q + 4)[0] == b[q + 2]);
        assert(b.subrange(q + 2, q + 4)[1] == b[q + 3]);
        lemma_i16_roundtrip(b, q + 4, n.pitch);
        assert(panning_of_byte(panning_byte(n.panning)) == n.panning.spec_get());
    }
}

// Note stream
//
// ++++++++++++============++++++++++++============++++++++++++============

/// The jumps that store the `k`-th position lie in 1..=65535: the tick jump
/// where the tick changes, and the layer jump from the previous note of the
/// tick (or from `u32::MAX`).
pub open spec fn jumps_fit(s: Seq<(Position, Note)>, k: int) -> bool {
    let pos = s[k].0;
    let prev_layer = if opens_tick(s, k) { u32::MAX } else { s[k - 1].0.spec_layer() };
    &&& opens_tick(s, k) ==> 1 <= wrap_sub(pos.spec_tick(), prev_tick(s, k)) <= 65535
    &&& !opens_tick(s, k) ==> pos.spec_tick() == prev_tick(s, k)
    &&& 1 <= wrap_sub(pos.spec_layer(), prev_layer) <= 65535
}

/// Every position of the notes can be stored as jumps.
pub open spec fn stream_fits(s: Seq<(Position, Note)>) -> bool {
    forall|k: int| 0 <= k < s.len() ==> #[trigger] jumps_fit(s, k)
}

/// The bytes of the chunks of the notes from the `k`-th on.
pub open spec fn chunks_from(s: Seq<(Position, Note)>, k: int, v: u8, fci: u8) -> Seq<u8>
    decreases s.len() - k,
{
    if k < 0 || k >= s.len() {
        Seq::empty()
    } else {
        note_chunk(s, k, v, fci) + chunks_from(s, k + 1, v, fci)
    }
}

/// The chunks of the first `m` notes followed by those from the `m`-th on
/// are the chunks of all notes.
pub proof fn lemma_chunks_split(s: Seq<(Position, Note)>, m: int, v: u8, fci: u8)
    requires
        0 <= m <= s.len(),
    ensures
        note_chunks(s, s.len() as int, v, fci) == note_chunks(s, m, v, fci) + chunks_from(s, m, v, fci),
    decreases s.len() - m,
{
    if m < s.len() {
        lemma_chunks_split(s, m + 1, v, fci);
        assert(note_chunks(s, m + 1, v, fci) == note_chunks(s, m, v, fci) + note_chunk(s, m, v, fci));
        assert(note_chunks(s, m, v, fci) + note_chunk(s, m, v, fci) + chunks_from(s, m + 1, v, fci) =~= note_chunks(
            s,
            m,
            v,
            fci,
        ) + chunks_from(s, m, v, fci));
    } else {
        assert(note_chunks(s, m, v, fci) + chunks_from(s, m, v, fci) =~= note_chunks(s, m, v, fci));
    }
}

/// A stored jump reads back.
pub proof fn lemma_jump_roundtrip(b: Seq<u8>, q: int, j: u32)
    requires
        j <= 65535,
        holds_at(b, q, jump_field(j)),
    ensures
        u16_at(b, q) == j,
{
    lemma_u16_roundtrip(b, q, j as u16);
}

/// Advancing by the wrapped difference reaches the target.
pub proof fn lemma_wrap(a: u32, x: u32)
    ensures
        wrap_add(a, wrap_sub(x, a)) == x,
{
}

/// The layer cursor before the `k`-th note: the previous note's layer
/// within its tick, else `u32::MAX`.
pub open spec fn layer_before(s: Seq<(Position, Note)>, k: int) -> u32 {
    if opens_tick(s, k) { u32::MAX } else { s[k - 1].0.spec_layer() }
}

/// The notes `t` read back the notes of `s` from the `k`-th on, one by one.
pub open spec fn rereads(s: Seq<(Position, Note)>, k: int, t: Seq<(Position, Note)>, v: u8, fci: u8) -> bool {
    &&& t.len() == s.len() - k
    &&& forall|i: int|
        0 <= i < t.len() ==> (#[trigger] t[i]).0 == s[k + i].0 && note_reread(s[k + i].1, t[i].1, v, fci)
}

/// The reader is within the notes of a tick before the `k`-th chunk.
pub open spec fn within_tick(s: Seq<(Position, Note)>, k: int) -> bool {
    0 < k < s.len() && !opens_tick(s, k)
}

/// The note of the `k`-th chunk, read from where its layer jump stands
/// within its tick, and what follows it: the stream ends where it was
/// written to, and the notes read back one by one.
#[verifier::spinoff_prover]
#[verifier::rlimit(50)]
proof fn lemma_note_part(
    b: Seq<u8>,
    q: int,
    s: Seq<(Position, Note)>,
    k: int,
    v: u8,
    fci: u8,
    t: Seq<(Position, Note)>,
)
    requires
        0 <= k < s.len(),
        stream_fits(s),
        forall|i: int| 0 <= i < s.len() ==> note_valid(#[trigger] s[i].1),
        holds_at(
            b,
            q,
            jump_field(wrap_sub(s[k].0.spec_layer(), layer_before(s, k)))
                + note_bytes(s[k].1, v, fci) + (if closes_tick(s, k) { jump_field(0) } else { Seq::empty() })
                + chunks_from(s, k + 1, v, fci) + le16(0),
        ),
    ensures
        stream_outcome(b, q, v, true) == Outcome::Ends(
            q + 2 + note_len(v) + (if closes_tick(s, k) { 2int } else { 0int }) + chunks_from(s, k + 1, v, fci).len()
                + 2,
        ),
        stream_read(b, q, v, fci, true, s[k].0.spec_tick(), layer_before(s, k), t) ==> rereads(s, k, t, v, fci),
    decreases s.len() - k, 0int,
{
    let prev_layer = layer_before(s, k);
    let lj = jump_field(wrap_sub(s[k].0.spec_layer(), prev_layer));
    let nb = note_bytes(s[k].1, v, fci);
    let e = if closes_tick(s, k) { jump_field(0) } else { Seq::empty() };
    let rest = chunks_from(s, k + 1, v, fci) + le16(0);
    assert(jumps_fit(s, k));
    assert(lj + nb + e + chunks_from(s, k + 1, v, fci) + le16(0) == lj + nb + e + rest);
    lemma_holds_concat(b, q, lj + nb + e, rest);
    lemma_holds_concat(b, q, lj + nb, e);
    lemma_holds_concat(b, q, lj, nb);
    lemma_jump_roundtrip(b, q, wrap_sub(s[k].0.spec_layer(), prev_layer));
    lemma_wrap(prev_layer, s[k].0.spec_layer());
    lemma_note_roundtrip(b, q + 2, s[k].1, v, fci, t[0].1);
    let q2 = q + 2 + note_len(v);
    let tick = s[k].0.spec_tick();
    let layer = s[k].0.spec_layer();
    assert(Position::spec_at(tick, layer) == s[k].0);
    if closes_tick(s, k) {
        lemma_jump_roundtrip(b, q2, 0);
        lemma_stream_from(b, q2 + 2, s, k + 1, v, fci, layer, t.drop_first());
        if k + 1 < s.len() {
            assert(!within_tick(s, k + 1));
        }
    } else {
        assert(within_tick(s, k + 1));
        assert(e =~= Seq::<u8>::empty());
        lemma_stream_from(b, q2, s, k + 1, v, fci, layer, t.drop_first());
    }
    assert(stream_outcome(b, q, v, true) == stream_outcome(b, q2, v, true));
    if closes_tick(s, k) {
        assert(stream_outcome(b, q2, v, true) == stream_outcome(b, q2 + 2, v, false));
    }
    if stream_read(b, q, v, fci, true, tick, prev_layer, t) {
        assert(t.len() > 0);
        assert(t[0].0 == s[k].0);
        assert(note_read(b, q + 2, v, fci, t[0].1));
        assert(stream_read(b, q2, v, fci, true, tick, layer, t.drop_first()));
        if closes_tick(s, k) {
            assert(stream_read(b, q2 + 2, v, fci, false, tick, layer, t.drop_first()));
        }
        assert(prev_tick(s, k + 1) == tick);
        assert(rereads(s, k + 1, t.drop_first(), v, fci));
        assert forall|i: int| 0 <= i < t.len() implies (#[trigger] t[i]).0 == s[k + i].0 && note_reread(
            s[k + i].1,
            t[i].1,
            v,
            fci,
        ) by {
            if i > 0 {
                assert(t[i] == t.drop_first()[i - 1]);
            }
        }
        assert(rereads(s, k, t, v, fci));
    }
}

/// The chunks from the `k`-th on, followed by the final 0, read from where
/// they were written with the reader in the state the earlier chunks left:
/// the stream ends where it was written to, and the notes read back one by
/// one.
#[verifier::spinoff_prover]
#[verifier::rlimit(50)]
pub proof fn lemma_stream_from(
    b: Seq<u8>,
    q: int,
    s: Seq<(Position, Note)>,
    k: int,
    v: u8,
    fci: u8,
    layer: u32,
    t: Seq<(Position, Note)>,
)
    requires
        0 <= k <= s.len(),
        stream_fits(s),
        forall|i: int| 0 <= i < s.len() ==> note_valid(#[trigger] s[i].1),
        holds_at(b, q, chunks_from(s, k, v, fci) + le16(0)),
    ensures
        ({
            let inside = within_tick(s, k);
            let cursor = if inside { s[k - 1].0.spec_layer() } else { layer };
            &&& stream_outcome(b, q, v, inside) == Outcome::Ends(q + chunks_from(s, k, v, fci).len() + 2)
            &&& stream_read(b, q, v, fci, inside, prev_tick(s, k), cursor, t) ==> rereads(s, k, t, v, fci)
        }),
    decreases s.len() - k, 1int,
{
    if k == s.len() {
        assert(chunks_from(s, k, v, fci) + le16(0) =~= le16(0));
        lemma_u16_roundtrip(b, q, 0);
    } else {
        let prev_layer = if opens_tick(s, k) { u32::MAX } else { s[k - 1].0.spec_layer() };
        let lj = jump_field(wrap_sub(s[k].0.spec_layer(), prev_layer));
        let nb = note_bytes(s[k].1, v, fci);
        let e = if closes_tick(s, k) { jump_field(0) } else { Seq::empty() };
        let tail = lj + nb + e + chunks_from(s, k + 1, v, fci) + le16(0);
        assert(jumps_fit(s, k));
        if opens_tick(s, k) {
            let tj = jump_field(wrap_sub(s[k].0.spec_tick(), prev_tick(s, k)));
            assert(chunks_from(s, k, v, fci) + le16(0) =~= tj + tail);
            lemma_holds_concat(b, q, tj, tail);
            lemma_jump_roundtrip(b, q, wrap_sub(s[k].0.spec_tick(), prev_tick(s, k)));
            lemma_wrap(prev_tick(s, k), s[k].0.spec_tick());
            lemma_note_part(b, q + 2, s, k, v, fci, t);
        } else {
            assert(chunks_from(s, k, v, fci) + le16(0) =~= tail);
            lemma_note_part(b, q, s, k, v, fci, t);
        }
    }
}

/// A written note stream reads completely and gives back the notes one by
/// one, each as `note_reread` says.
pub proof fn lemma_stream_roundtrip(
    b: Seq<u8>,
    p: int,
    s: Seq<(Position, Note)>,
    v: u8,
    fci: u8,
    t: Seq<(Position, Note)>,
)
    requires
        stream_fits(s),
        forall|i: int| 0 <= i < s.len() ==> note_valid(#[trigger] s[i].1),
        holds_at(b, p, stream_bytes(s, v, fci)),
    ensures
        stream_outcome(b, p, v, false) == Outcome::Ends(p + stream_bytes(s, v, fci).len()),
        stream_read(b, p, v, fci, false, u32::MAX, u32::MAX, t) ==> rereads(s, 0, t, v, fci),
{
    lemma_chunks_split(s, 0, v, fci);
    assert(stream_bytes(s, v, fci) =~= chunks_from(s, 0, v, fci) + le16(0));
    lemma_stream_from(b, p, s, 0, v, fci, u32::MAX, t);
}

// Layers and custom instruments
//
// ++++++++++++============++++++++++++============++++++++++++============

/// `r` is what the written layer `l` reads back as from a file of version
/// `v`: its name through the encoder and the decoder, its lock from version
/// 4 on, its volume, and its panning from version 2 on.
pub open spec fn layer_restored(l: Layer, r: Layer, v: u8) -> bool {
    &&& r.name@ == text_restored(l.name@)
    &&& r.lock == (v >= 4 && l.lock)
    &&& r.volume.spec_get() == l.volume.spec_get()
    &&& r.panning.spec_get() == if v >= 2 { l.panning.spec_get() as int } else { 0 }
}

/// The layer holds a volume and a panning of their ranges.
pub open spec fn layer_valid(l: Layer) -> bool {
    l.volume.spec_get() <= 100 && -100 <= l.panning.spec_get() <= 100
}

/// The bytes of the layers from the `k`-th to the `n`-th.
pub open spec fn layers_from(ls: Seq<Layer>, k: int, n: int, v: u8) -> Seq<u8>
    decreases n - k,
{
    if k < 0 || k >= n {
        Seq::empty()
    } else {
        layer_bytes(ls[k], v) + layers_from(ls, k + 1, n, v)
    }
}

proof fn lemma_layers_split(ls: Seq<Layer>, m: int, n: int, v: u8)
    requires
        0 <= m <= n,
    ensures
        layers_bytes(ls, n, v) == layers_bytes(ls, m, v) + layers_from(ls, m, n, v),
    decreases n - m,
{
    if m < n {
        lemma_layers_split(ls, m + 1, n, v);
        assert(layers_bytes(ls, m, v) + layer_bytes(ls[m], v) + layers_from(ls, m + 1, n, v) =~= layers_bytes(ls, m, v)
            + layers_from(ls, m, n, v));
    } else {
        assert(layers_bytes(ls, m, v) + layers_from(ls, m, n, v) =~= layers_bytes(ls, m, v));
    }
}

/// A written layer reads completely and back as `layer_restored` says.
#[verifier::spinoff_prover]
#[verifier::rlimit(50)]
proof fn lemma_layer_roundtrip(b: Seq<u8>, q: int, l: Layer, v: u8, r: Layer)
    requires
        layer_valid(l),
        holds_at(b, q, layer_bytes(l, v)),
    ensures
        layer_outcome(b, q, v) == Outcome::Ends(q + layer_bytes(l, v).len()),
        layer_end(b, q, v) == q + layer_bytes(l, v).len(),
        layer_read(b, q, v, r) ==> layer_restored(l, r, v),
{
    let name = string_field(l.name@);
    let lock = if v >= 4 { seq![byte_of_bool(l.lock)] } else { Seq::empty() };
    let vol = seq![l.volume.spec_get()];
    let pan = if v >= 2 { seq![panning_byte(l.panning)] } else { Seq::empty() };
    assert(layer_bytes(l, v) == name + lock + vol + pan);
    lemma_holds_concat(b, q, name + lock + vol, pan);
    lemma_holds_concat(b, q, name + lock, vol);
    lemma_holds_concat(b, q, name, lock);
    lemma_string_roundtrip(b, q, l.name@);
    let e = q + name.len();
    assert(str_end(b, q) == e);
    if v >= 4 {
        assert(b.subrange(e, e + 1)[0] == b[e]);
    }
    let vq = e + lock.len();
    assert(b.subrange(vq, vq + 1)[0] == b[vq]);
    if v >= 2 {
        assert(b.subrange(vq + 1, vq + 2)[0] == b[vq + 1]);
        assert(panning_of_byte(panning_byte(l.panning)) == l.panning.spec_get());
    }
}

/// Written layers read completely, and read back one by one.
#[verifier::spinoff_prover]
#[verifier::rlimit(50)]
proof fn lemma_layers_from(b: Seq<u8>, q: int, ls: Seq<Layer>, k: int, v: u8, rs: Seq<Layer>)
    requires
        0 <= k <= ls.len(),
        forall|i: int| 0 <= i < ls.len() ==> layer_valid(#[trigger] ls[i]),
        holds_at(b, q, layers_from(ls, k, ls.len() as int, v)),
    ensures
        layers_outcome(b, q, v, (ls.len() - k) as nat) == Outcome::Ends(q + layers_from(ls, k, ls.len() as int, v).len()),
        rs.len() == ls.len() - k && layers_read(b, q, v, rs) ==> forall|i: int|
            0 <= i < rs.len() ==> layer_restored(ls[k + i], #[trigger] rs[i], v),
    decreases ls.len() - k,
{
    if k < ls.len() {
        let first = layer_bytes(ls[k], v);
        let rest = layers_from(ls, k + 1, ls.len() as int, v);
        lemma_holds_concat(b, q, first, rest);
        lemma_layer_roundtrip(b, q, ls[k], v, rs[0]);
        lemma_layers_from(b, q + first.len(), ls, k + 1, v, rs.drop_first());
        if rs.len() == ls.len() - k && layers_read(b, q, v, rs) {
            assert forall|i: int| 0 <= i < rs.len() implies layer_restored(ls[k + i], #[trigger] rs[i], v) by {
                if i > 0 {
                    assert(rs[i] == rs.drop_first()[i - 1]);
                }
            }
        }
    }
}

/// Written layers read completely, and back one by one as `layer_restored`
/// says.
pub proof fn lemma_layers_roundtrip(b: Seq<u8>, q: int, ls: Seq<Layer>, v: u8, rs: Seq<Layer>)
    requires
        forall|i: int| 0 <= i < ls.len() ==> layer_valid(#[trigger] ls[i]),
        holds_at(b, q, layers_bytes(ls, ls.len() as int, v)),
    ensures
        layers_outcome(b, q, v, ls.len()) == Outcome::Ends(q + layers_bytes(ls, ls.len() as int, v).len()),
        rs.len() == ls.len() && layers_read(b, q, v, rs) ==> forall|i: int|
            0 <= i < rs.len() ==> layer_restored(ls[i], #[trigger] rs[i], v),
{
    lemma_layers_split(ls, 0, ls.len() as int, v);
    assert(layers_bytes(ls, ls.len() as int, v) =~= layers_from(ls, 0, ls.len() as int, v));
    lemma_layers_from(b, q, ls, 0, v, rs);
}

/// `r` is what the `j`-th entry of the written custom table reads back as:
/// the preset or the song's entry, its texts through the encoder and the
/// decoder.
pub open spec fn entry_restored(fci: u8, cs: Seq<CustomInstrument>, j: int, r: CustomInstrument) -> bool {
    if j < 20 - fci {
        &&& r.name@ == text_restored(preset_definition(fci + j).0)
        &&& r.file@ == text_restored(preset_definition(fci + j).1)
        &&& r.pitch == 45
        &&& r.press_key
    } else {
        let c = cs[j - (20 - fci)];
        &&& r.name@ == text_restored(c.name@)
        &&& r.file@ == text_restored(c.file@)
        &&& r.pitch == c.pitch
        &&& r.press_key == c.press_key
    }
}

/// The bytes of the custom table entries from the `k`-th to the `n`-th.
pub open spec fn table_from(fci: u8, cs: Seq<CustomInstrument>, k: int, n: int) -> Seq<u8>
    decreases n - k,
{
    if k < 0 || k >= n {
        Seq::empty()
    } else {
        table_entry_bytes(fci, cs, k) + table_from(fci, cs, k + 1, n)
    }
}

proof fn lemma_table_split(fci: u8, cs: Seq<CustomInstrument>, m: int, n: int)
    requires
        0 <= m <= n,
    ensures
        table_bytes(fci, cs, n) == table_bytes(fci, cs, m) + table_from(fci, cs, m, n),
    decreases n - m,
{
    if m < n {
        lemma_table_split(fci, cs, m + 1, n);
        assert(table_bytes(fci, cs, m) + table_entry_bytes(fci, cs, m) + table_from(fci, cs, m + 1, n) =~= table_bytes(
            fci,
            cs,
            m,
        ) + table_from(fci, cs, m, n));
    } else {
        assert(table_bytes(fci, cs, m) + table_from(fci, cs, m, n) =~= table_bytes(fci, cs, m));
    }
}

/// A written custom table entry reads completely and back with its texts
/// through the encoder and the decoder.
#[verifier::spinoff_prover]
proof fn lemma_entry_roundtrip(
    b: Seq<u8>,
    q: int,
    name: Seq<char>,
    file: Seq<char>,
    pitch: u8,
    press_key: bool,
    r: CustomInstrument,
)
    requires
        holds_at(b, q, entry_bytes(name, file, pitch, press_key)),
    ensures
        custom_outcome(b, q) == Outcome::Ends(q + entry_bytes(name, file, pitch, press_key).len()),
        custom_end(b, q) == q + entry_bytes(name, file, pitch, press_key).len(),
        custom_read(b, q, r) ==> r.name@ == text_restored(name) && r.file@ == text_restored(file) && r.pitch == pitch
            && r.press_key == press_key,
{
    let n1 = string_field(name);
    let n2 = string_field(file);
    let tail = seq![pitch, byte_of_bool(press_key)];
    lemma_holds_concat(b, q, n1 + n2, tail);
    lemma_holds_concat(b, q, n1, n2);
    lemma_string_roundtrip(b, q, name);
    lemma_string_roundtrip(b, q + n1.len(), file);
    let e = q + n1.len() + n2.len();
    assert(b.subrange(e, e + 2)[0] == b[e]);
    assert(b.subrange(e, e + 2)[1] == b[e + 1]);
}

/// Written table entries read completely and back one by one.
#[verifier::spinoff_prover]
#[verifier::rlimit(50)]
proof fn lemma_table_from(b: Seq<u8>, q: int, fci: u8, cs: Seq<CustomInstrument>, k: int, n: int, rs: Seq<CustomInstrument>)
    requires
        fci <= 20,
        0 <= k <= n,
        n <= 20 - fci + cs.len(),
        holds_at(b, q, table_from(fci, cs, k, n)),
    ensures
        customs_outcome(b, q, (n - k) as nat) == Outcome::Ends(q + table_from(fci, cs, k, n).len()),
        rs.len() == n - k && customs_read(b, q, rs) ==> forall|j: int|
            0 <= j < rs.len() ==> entry_restored(fci, cs, k + j, #[trigger] rs[j]),
    decreases n - k,
{
    if k < n {
        let first = table_entry_bytes(fci, cs, k);
        let rest = table_from(fci, cs, k + 1, n);
        lemma_holds_concat(b, q, first, rest);
        if k < 20 - fci {
            lemma_entry_roundtrip(b, q, preset_definition(fci + k).0, preset_definition(fci + k).1, 45, true, rs[0]);
        } else {
            let c = cs[k - (20 - fci)];
            lemma_entry_roundtrip(b, q, c.name@, c.file@, c.pitch, c.press_key, rs[0]);
        }
        lemma_table_from(b, q + first.len(), fci, cs, k + 1, n, rs.drop_first());
        if rs.len() == n - k && customs_read(b, q, rs) {
            assert(customs_read(b, q + first.len(), rs.drop_first()));
            assert forall|j: int| 0 <= j < rs.len() implies entry_restored(fci, cs, k + j, #[trigger] rs[j]) by {
                if j > 0 {
                    assert(rs[j] == rs.drop_first()[j - 1]);
                }
            }
        }
    }
}

/// A written custom table reads completely and back entry by entry as
/// `entry_restored` says.
pub proof fn lemma_table_roundtrip(b: Seq<u8>, q: int, fci: u8, cs: Seq<CustomInstrument>, n: int, rs: Seq<CustomInstrument>)
    requires
        fci <= 20,
        0 <= n <= 20 - fci + cs.len(),
        holds_at(b, q, table_bytes(fci, cs, n)),
    ensures
        customs_outcome(b, q, n as nat) == Outcome::Ends(q + table_bytes(fci, cs, n).len()),
        rs.len() == n && customs_read(b, q, rs) ==> forall|j: int|
            0 <= j < rs.len() ==> entry_restored(fci, cs, j, #[trigger] rs[j]),
{
    lemma_table_split(fci, cs, 0, n);
    assert(table_bytes(fci, cs, n) =~= table_from(fci, cs, 0, n));
    lemma_table_from(b, q, fci, cs, 0, n, rs);
}

// Folding what was written
//
// ++++++++++++============++++++++++++============++++++++++++============

/// The preset definitions of a file whose custom instruments start at
/// `fci` read back as themselves (as the encoder and the decoder do with
/// ASCII text).
pub open spec fn presets_restore(fci: u8) -> bool {
    forall|k: int|
        fci <= k < 20 ==> text_restored(#[trigger] preset_definition(k).0) == preset_definition(k).0 && text_restored(
            preset_definition(k).1,
        ) == preset_definition(k).1
}

/// No entry of `cs` reads back as a preset of a file whose custom
/// instruments start at `fci`.
pub open spec fn entries_stay_custom(fci: u8, cs: Seq<CustomInstrument>) -> bool {
    forall|j: int|
        0 <= j < cs.len() ==> preset_from(fci as int, text_restored((#[trigger] cs[j]).name@), text_restored(cs[j].file@))
            is None
}

/// Scanning the presets from `j` finds the instrument at `k` by its
/// definition.
proof fn lemma_preset_scan(j: int, k: int)
    requires
        0 <= j <= k < 20,
    ensures
        preset_from(j, preset_definition(k).0, preset_definition(k).1) == spec_vanilla_at(k as u8),
    decreases k - j,
{
    if j < k {
        let a = spec_vanilla_at(j as u8).unwrap();
        let c = spec_vanilla_at(k as u8).unwrap();
        lemma_vanilla_at(j as u8, a);
        lemma_vanilla_at(k as u8, c);
        lemma_definitions_distinct(a, c);
        lemma_preset_scan(j + 1, k);
    }
}

/// The custom table read back from a write folds as written: its presets
/// into their vanilla instruments, the rest kept in order.
#[verifier::spinoff_prover]
proof fn lemma_table_folds(fci: u8, cs: Seq<CustomInstrument>, t: Seq<CustomInstrument>)
    requires
        10 <= fci <= 20,
        t.len() == 20 - fci + cs.len(),
        forall|j: int| 0 <= j < t.len() ==> entry_restored(fci, cs, j, #[trigger] t[j]),
        presets_restore(fci),
        entries_stay_custom(fci, cs),
    ensures
        forall|j: int| 0 <= j < 20 - fci ==> fold_target(fci, #[trigger] t[j]) == spec_vanilla_at((fci + j) as u8),
        forall|j: int| 20 - fci <= j < t.len() ==> fold_target(fci, #[trigger] t[j]) is None,
        forall|m: int| 20 - fci <= m <= t.len() ==> #[trigger] presets_below(fci, t, m) == 20 - fci,
        kept_entries(fci, t) == t.subrange(20 - fci, t.len() as int),
{
    let p = 20 - fci;
    assert forall|j: int| 0 <= j < p implies fold_target(fci, #[trigger] t[j]) == spec_vanilla_at((fci + j) as u8) by {
        assert(entry_restored(fci, cs, j, t[j]));
        assert(text_restored(preset_definition(fci + j).0) == preset_definition(fci + j).0);
        lemma_preset_scan(fci as int, fci + j);
    }
    assert forall|j: int| p <= j < t.len() implies fold_target(fci, #[trigger] t[j]) is None by {
        assert(entry_restored(fci, cs, j, t[j]));
        assert(cs[j - p] == cs[j - p]);
    }
    lemma_presets_counted(fci, t, t.len() as int);
    lemma_kept(fci, t, t.len() as int);
    assert(t.take(t.len() as int) =~= t);
}

/// Counting presets over a prefix of the read-back table.
proof fn lemma_presets_counted(fci: u8, t: Seq<CustomInstrument>, m: int)
    requires
        fci <= 20,
        0 <= m <= t.len(),
        20 - fci <= t.len(),
        forall|j: int| 0 <= j < 20 - fci ==> fold_target(fci, #[trigger] t[j]) is Some,
        forall|j: int| 20 - fci <= j < t.len() ==> fold_target(fci, #[trigger] t[j]) is None,
    ensures
        presets_below(fci, t, m) == if m < 20 - fci { m } else { 20 - fci },
        forall|m2: int| 20 - fci <= m2 <= m ==> #[trigger] presets_below(fci, t, m2) == 20 - fci,
    decreases m,
{
    if m > 0 {
        lemma_presets_counted(fci, t, m - 1);
        assert(t[m - 1] == t[m - 1]);
    }
}

/// Keeping the entries of a prefix of the read-back table that stand for no
/// preset.
proof fn lemma_kept(fci: u8, t: Seq<CustomInstrument>, m: int)
    requires
        fci <= 20,
        0 <= m <= t.len(),
        20 - fci <= t.len(),
        forall|j: int| 0 <= j < 20 - fci ==> fold_target(fci, #[trigger] t[j]) is Some,
        forall|j: int| 20 - fci <= j < t.len() ==> fold_target(fci, #[trigger] t[j]) is None,
    ensures
        kept_entries(fci, t.take(m)) == if m <= 20 - fci { Seq::empty() } else { t.subrange(20 - fci, m) },
    decreases m,
{
    if m == 0 {
        assert(t.take(0) =~= Seq::<CustomInstrument>::empty());
        reveal(Seq::filter);
    } else {
        lemma_kept(fci, t, m - 1);
        assert(t.take(m) =~= t.take(m - 1).push(t[m - 1]));
        t.take(m - 1).lemma_filter_push(t[m - 1], |c: CustomInstrument| fold_target(fci, c) is None);
        if m > 20 - fci {
            if m - 1 == 20 - fci {
                assert(t.subrange(20 - fci, m) =~= seq![t[m - 1]]);
                assert(Seq::<CustomInstrument>::empty().push(t[m - 1]) =~= seq![t[m - 1]]);
            } else {
                assert(t.subrange(20 - fci, m) =~= t.subrange(20 - fci, m - 1).push(t[m - 1]));
            }
        }
    }
}

/// What a song's instrument reads back as: a mob head instrument, which no
/// file can store, reads back as the harp; any other instrument as itself.
pub open spec fn restored_instrument(i: Instrument) -> Instrument {
    match i {
        Instrument::Imitate(_) => Instrument::Harp,
        _ => i,
    }
}

/// A custom slot can be stored past the presets: at most 235.
pub open spec fn slot_fits(i: Instrument) -> bool {
    i matches Instrument::Custom(slot) ==> slot <= 235
}

/// An instrument read back from its stored byte folds back into the song's
/// instrument (a mob head instrument into the harp).
#[verifier::spinoff_prover]
proof fn lemma_instrument_restored(fci: u8, t: Seq<CustomInstrument>, i: Instrument, r: Instrument)
    requires
        10 <= fci <= 20,
        20 - fci <= t.len(),
        forall|j: int| 0 <= j < 20 - fci ==> fold_target(fci, #[trigger] t[j]) == spec_vanilla_at((fci + j) as u8),
        forall|j: int| 20 - fci <= j < t.len() ==> fold_target(fci, #[trigger] t[j]) is None,
        forall|m: int| 20 - fci <= m <= t.len() ==> #[trigger] presets_below(fci, t, m) == 20 - fci,
        slot_fits(i),
        instrument_is(r, instrument_byte(encoded_instrument(fci, i), fci), fci),
    ensures
        folded_instrument(fci, t, r) == restored_instrument(i),
{
    match i {
        Instrument::Custom(slot) => {
            let m = if (slot + 20 - fci) < t.len() { slot + 20 - fci } else { t.len() as int };
            assert(presets_below(fci, t, m) == 20 - fci);
        },
        Instrument::Imitate(_) => {
            lemma_vanilla_at(0, r);
        },
        _ => {
            let k = spec_vanilla_index(i).unwrap();
            lemma_vanilla_at(k, i);
            if k < fci {
                lemma_vanilla_at(k, r);
            } else {
                assert(fold_target(fci, t[k - fci]) == spec_vanilla_at(k));
            }
        },
    }
}

// Songs
//
// ++++++++++++============++++++++++++============++++++++++++============

/// `r` is what the written note `n` reads back as from a file of version
/// `v`: its instrument restored, its key kept, and its volume, panning and
/// pitch kept from version 4 on (before, they read as the defaults).
pub open spec fn note_restored(n: Note, r: Note, v: u8) -> bool {
    &&& r.tone.instrument == restored_instrument(n.tone.instrument)
    &&& r.tone.key.spec_value() == n.tone.key.spec_value()
    &&& r.velocity.spec_get() == if v >= 4 { n.velocity.spec_get() } else { 100 }
    &&& r.panning.spec_get() == if v >= 4 { n.panning.spec_get() as int } else { 0 }
    &&& r.pitch == if v >= 4 { n.pitch } else { 0 }
}

/// `r` is what the written custom instrument `c` reads back as: its texts
/// through the encoder and the decoder, the rest kept.
pub open spec fn custom_restored(c: CustomInstrument, r: CustomInstrument) -> bool {
    &&& r.name@ == text_restored(c.name@)
    &&& r.file@ == text_restored(c.file@)
    &&& r.pitch == c.pitch
    &&& r.press_key == c.press_key
}

/// `r` is what the written song reads back as: the header it was written
/// with (as `header_restored` says), the layers, custom instruments and
/// notes at the same positions, each restored.
pub open spec fn song_restored(song: Song, r: Song) -> bool {
    let v = song.header.version.spec_get();
    &&& header_restored(written_header(song), r.header)
    &&& r.layers@.len() == song.layers@.len()
    &&& forall|i: int| 0 <= i < song.layers@.len() ==> layer_restored(song.layers@[i], #[trigger] r.layers@[i], v)
    &&& r.custom_instruments@.len() == song.custom_instruments@.len()
    &&& forall|j: int|
        0 <= j < song.custom_instruments@.len() ==> custom_restored(
            song.custom_instruments@[j],
            #[trigger] r.custom_instruments@[j],
        )
    &&& forall|p: Position| #[trigger] r.notes@.contains_key(p) <==> song.notes@.contains_key(p)
    &&& forall|p: Position| #[trigger] song.notes@.contains_key(p) ==> note_restored(song.notes@[p], r.notes@[p], v)
}

/// The song can be written and read back: its values lie in their ranges
/// (which their types keep), its notes' positions can be stored as jumps,
/// its layer count fits the header, its custom table fits 255 entries with
/// the presets of its version, its custom slots fit past the presets, the
/// presets read back as themselves, and no entry of its own reads back as a
/// preset.
pub open spec fn song_restorable(song: Song) -> bool {
    let v = song.header.version.spec_get();
    let fci = Version::spec_vanilla_instruments(v);
    let s = song.notes.entries();
    &&& Version::valid_number(v)
    &&& song.notes.wf()
    &&& stream_fits(s)
    &&& forall|i: int| 0 <= i < s.len() ==> note_valid(#[trigger] s[i].1) && slot_fits(s[i].1.tone.instrument)
    &&& forall|i: int| 0 <= i < song.layers@.len() ==> layer_valid(#[trigger] song.layers@[i])
    &&& song.layers@.len() <= 65535
    &&& 20 - fci + song.custom_instruments@.len() <= 255
    &&& presets_restore(fci)
    &&& entries_stay_custom(fci, song.custom_instruments@)
}

/// Where the parts of a written song end.
pub open spec fn written_notes_at(song: Song) -> int {
    header_bytes(written_header(song)).len() as int
}

pub open spec fn written_layers_at(song: Song) -> int {
    let v = song.header.version.spec_get();
    written_notes_at(song) + stream_bytes(song.notes.entries(), v, Version::spec_vanilla_instruments(v)).len()
}

pub open spec fn written_table_at(song: Song) -> int {
    let v = song.header.version.spec_get();
    written_layers_at(song) + layers_bytes(song.layers@, song.layers@.len() as int, v).len()
}

/// The layout of a written song: each part reads completely from where it
/// was written, and back part by part.
#[verifier::spinoff_prover]
#[verifier::rlimit(80)]
proof fn lemma_song_layout(
    song: Song,
    rh: Header,
    t: Seq<(Position, Note)>,
    ls: Seq<Layer>,
    c2: Seq<CustomInstrument>,
)
    requires
        song_restorable(song),
    ensures
        ({
            let v = song.header.version.spec_get();
            let fci = Version::spec_vanilla_instruments(v);
            let b = song_bytes(song);
            &&& hd_version(b, 0) == v
            &&& declared_fci(b) == fci
            &&& hd_end(b, 0) == written_notes_at(song)
            &&& u16_at(b, hd_layers_at(b, 0)) == song.layers@.len()
            &&& notes_end(b) == written_layers_at(song)
            &&& layers_end(b) == written_table_at(song)
            &&& b[layers_end(b)] == 20 - fci + song.custom_instruments@.len()
            &&& declares_known_instruments(b)
            &&& song_outcome(b) == Outcome::Ends(b.len() as int)
            &&& hd_read(b, 0, rh) ==> header_restored(written_header(song), rh)
            &&& crate::codec::stream_read(b, written_notes_at(song), v, fci, false, u32::MAX, u32::MAX, t) ==> rereads(
                song.notes.entries(),
                0,
                t,
                v,
                fci,
            )
            &&& ls.len() == song.layers@.len() && layers_read(b, written_layers_at(song), v, ls) ==> forall|i: int|
                0 <= i < ls.len() ==> layer_restored(song.layers@[i], #[trigger] ls[i], v)
            &&& c2.len() == 20 - fci + song.custom_instruments@.len() && customs_read(b, written_table_at(song) + 1, c2)
                ==> forall|j: int| 0 <= j < c2.len() ==> entry_restored(fci, song.custom_instruments@, j, #[trigger] c2[j])
        }),
{
    let v = song.header.version.spec_get();
    let fci = Version::spec_vanilla_instruments(v);
    let s = song.notes.entries();
    let cs = song.custom_instruments@;
    let ls0 = song.layers@;
    let count = table_count(fci, cs);
    let wh = written_header(song);
    let hb = header_bytes(wh);
    let sb = stream_bytes(s, v, fci);
    let lb = layers_bytes(ls0, ls0.len() as int, v);
    let cb = seq![count as u8];
    let tb = table_bytes(fci, cs, count);
    let b = song_bytes(song);
    assert(b == hb + sb + lb + cb + tb);
    assert(holds_at(b, 0, b)) by {
        assert(b.subrange(0, b.len() as int) =~= b);
    }
    lemma_holds_concat(b, 0, hb + sb + lb + cb, tb);
    lemma_holds_concat(b, 0, hb + sb + lb, cb);
    lemma_holds_concat(b, 0, hb + sb, lb);
    lemma_holds_concat(b, 0, hb, sb);
    lemma_header_roundtrip(b, 0, wh, rh);
    let p1 = hb.len() as int;
    let p2 = p1 + sb.len();
    let p3 = p2 + lb.len();
    lemma_stream_roundtrip(b, p1, s, v, fci, t);
    lemma_layers_roundtrip(b, p2, ls0, v, ls);
    assert(b.subrange(p3, p3 + 1)[0] == b[p3]);
    lemma_table_roundtrip(b, p3 + 1, fci, cs, count, c2);
}

/// The custom instruments read back from a written song: the table without
/// its presets, each entry restored.
#[verifier::spinoff_prover]
proof fn lemma_customs_restored(fci: u8, cs: Seq<CustomInstrument>, c2: Seq<CustomInstrument>, kept: Seq<CustomInstrument>)
    requires
        10 <= fci <= 20,
        c2.len() == 20 - fci + cs.len(),
        forall|j: int| 0 <= j < c2.len() ==> entry_restored(fci, cs, j, #[trigger] c2[j]),
        presets_restore(fci),
        entries_stay_custom(fci, cs),
        kept == kept_entries(fci, c2),
    ensures
        kept.len() == cs.len(),
        forall|j: int| 0 <= j < cs.len() ==> custom_restored(cs[j], #[trigger] kept[j]),
        forall|j: int| 0 <= j < 20 - fci ==> fold_target(fci, #[trigger] c2[j]) == spec_vanilla_at((fci + j) as u8),
        forall|j: int| 20 - fci <= j < c2.len() ==> fold_target(fci, #[trigger] c2[j]) is None,
        forall|m: int| 20 - fci <= m <= c2.len() ==> #[trigger] presets_below(fci, c2, m) == 20 - fci,
{
    lemma_table_folds(fci, cs, c2);
    assert forall|j: int| 0 <= j < cs.len() implies custom_restored(cs[j], #[trigger] kept[j]) by {
        assert(kept[j] == c2[20 - fci + j]);
        assert(entry_restored(fci, cs, 20 - fci + j, c2[20 - fci + j]));
    }
}

/// The notes read back from a written song: at the same positions, each
/// restored.
#[verifier::spinoff_prover]
#[verifier::rlimit(50)]
proof fn lemma_notes_restored(
    s: Seq<(Position, Note)>,
    t: Seq<(Position, Note)>,
    v: u8,
    fci: u8,
    c2: Seq<CustomInstrument>,
    m: Map<Position, Note>,
)
    requires
        10 <= fci <= 20,
        sorted_positions(s),
        forall|i: int| 0 <= i < s.len() ==> slot_fits((#[trigger] s[i]).1.tone.instrument),
        rereads(s, 0, t, v, fci),
        20 - fci <= c2.len(),
        forall|j: int| 0 <= j < 20 - fci ==> fold_target(fci, #[trigger] c2[j]) == spec_vanilla_at((fci + j) as u8),
        forall|j: int| 20 - fci <= j < c2.len() ==> fold_target(fci, #[trigger] c2[j]) is None,
        forall|k: int| 20 - fci <= k <= c2.len() ==> #[trigger] presets_below(fci, c2, k) == 20 - fci,
        m == map_of(t).map_values(|n: Note| folded_note(fci, c2, n)),
    ensures
        forall|p: Position| #[trigger] m.contains_key(p) <==> map_of(s).contains_key(p),
        forall|p: Position| #[trigger] map_of(s).contains_key(p) ==> note_restored(map_of(s)[p], m[p], v),
{
    assert(sorted_positions(t)) by {
        assert forall|a: int, c: int| 0 <= a < c < t.len() implies (#[trigger] t[a]).0.less((#[trigger] t[c]).0) by {
            assert(t[a].0 == s[a].0 && t[c].0 == s[c].0);
        }
    }
    assert forall|p: Position| #[trigger] m.contains_key(p) <==> map_of(s).contains_key(p) by {
        lemma_map_of_dom(t, p);
        lemma_map_of_dom(s, p);
        if map_of(t).contains_key(p) {
            let i = choose|i: int| 0 <= i < t.len() && (#[trigger] t[i]).0 == p;
            assert(s[i].0 == p);
        }
        if map_of(s).contains_key(p) {
            let i = choose|i: int| 0 <= i < s.len() && (#[trigger] s[i]).0 == p;
            assert(t[i].0 == p);
        }
    }
    assert forall|p: Position| #[trigger] map_of(s).contains_key(p) implies note_restored(map_of(s)[p], m[p], v) by {
        lemma_map_of_dom(s, p);
        let i = choose|i: int| 0 <= i < s.len() && (#[trigger] s[i]).0 == p;
        lemma_map_of_at(s, i);
        lemma_map_of_at(t, i);
        assert(t[i].0 == p);
        assert(note_reread(s[i].1, t[i].1, v, fci));
        lemma_instrument_restored(fci, c2, s[i].1.tone.instrument, t[i].1.tone.instrument);
    }
}

#[verifier::spinoff_prover]
proof fn lemma_parts_layers(song: Song, ls: Seq<Layer>)
    requires
        song_restorable(song),
        ls.len() == u16_at(song_bytes(song), hd_layers_at(song_bytes(song), 0)),
        layers_read(song_bytes(song), notes_end(song_bytes(song)), hd_version(song_bytes(song), 0), ls),
    ensures
        ls.len() == song.layers@.len(),
        forall|i: int|
            0 <= i < song.layers@.len() ==> layer_restored(song.layers@[i], #[trigger] ls[i], song.header.version.spec_get()),
{
    lemma_song_layout(song, song.header, Seq::empty(), ls, Seq::empty());
}

#[verifier::spinoff_prover]
proof fn lemma_parts_customs(song: Song, c2: Seq<CustomInstrument>, kept: Seq<CustomInstrument>)
    requires
        song_restorable(song),
        c2.len() == song_bytes(song)[layers_end(song_bytes(song))],
        customs_read(song_bytes(song), layers_end(song_bytes(song)) + 1, c2),
        kept == kept_entries(Version::spec_vanilla_instruments(hd_version(song_bytes(song), 0)), c2),
    ensures
        ({
            let fci = Version::spec_vanilla_instruments(song.header.version.spec_get());
            &&& kept.len() == song.custom_instruments@.len()
            &&& forall|j: int|
                0 <= j < song.custom_instruments@.len() ==> custom_restored(song.custom_instruments@[j], #[trigger] kept[j])
            &&& c2.len() == 20 - fci + song.custom_instruments@.len()
            &&& forall|j: int| 0 <= j < 20 - fci ==> fold_target(fci, #[trigger] c2[j]) == spec_vanilla_at((fci + j) as u8)
            &&& forall|j: int| 20 - fci <= j < c2.len() ==> fold_target(fci, #[trigger] c2[j]) is None
            &&& forall|m: int| 20 - fci <= m <= c2.len() ==> #[trigger] presets_below(fci, c2, m) == 20 - fci
        }),
{
    let fci = Version::spec_vanilla_instruments(song.header.version.spec_get());
    lemma_song_layout(song, song.header, Seq::empty(), Seq::empty(), c2);
    lemma_customs_restored(fci, song.custom_instruments@, c2, kept);
}

#[verifier::spinoff_prover]
proof fn lemma_parts_notes(song: Song, t: Seq<(Position, Note)>, c2: Seq<CustomInstrument>, m: Map<Position, Note>)
    requires
        song_restorable(song),
        crate::codec::stream_read(
            song_bytes(song),
            hd_end(song_bytes(song), 0),
            hd_version(song_bytes(song), 0),
            declared_fci(song_bytes(song)),
            false,
            u32::MAX,
            u32::MAX,
            t,
        ),
        ({
            let fci = Version::spec_vanilla_instruments(song.header.version.spec_get());
            &&& 20 - fci <= c2.len()
            &&& forall|j: int| 0 <= j < 20 - fci ==> fold_target(fci, #[trigger] c2[j]) == spec_vanilla_at((fci + j) as u8)
            &&& forall|j: int| 20 - fci <= j < c2.len() ==> fold_target(fci, #[trigger] c2[j]) is None
            &&& forall|k: int| 20 - fci <= k <= c2.len() ==> #[trigger] presets_below(fci, c2, k) == 20 - fci
            &&& m == map_of(t).map_values(|n: Note| folded_note(fci, c2, n))
        }),
    ensures
        forall|p: Position| #[trigger] m.contains_key(p) <==> song.notes@.contains_key(p),
        forall|p: Position|
            #[trigger] song.notes@.contains_key(p) ==> note_restored(song.notes@[p], m[p], song.header.version.spec_get()),
{
    let v = song.header.version.spec_get();
    let fci = Version::spec_vanilla_instruments(v);
    lemma_song_layout(song, song.header, t, Seq::empty(), Seq::empty());
    lemma_notes_restored(song.notes.entries(), t, v, fci, c2, m);
}

/// What a read gives back of a write: the bytes of a song read completely
/// (declaring at most 20 vanilla instruments), and any song they read as is
/// the written song restored.
#[verifier::spinoff_prover]
pub proof fn lemma_song_roundtrip(song: Song, r: Song)
    requires
        song_restorable(song),
    ensures
        declares_known_instruments(song_bytes(song)),
        song_outcome(song_bytes(song)) == Outcome::Ends(song_bytes(song).len() as int),
        song_read(song_bytes(song), r) ==> song_restored(song, r),
{
    lemma_song_layout(song, r.header, Seq::empty(), Seq::empty(), Seq::empty());
    if song_read(song_bytes(song), r) {
        let b = song_bytes(song);
        let (t, c2) = choose|t: Seq<(Position, Note)>, c2: Seq<CustomInstrument>|
            {
                &&& hd_read(b, 0, r.header)
                &&& crate::codec::stream_read(b, hd_end(b, 0), hd_version(b, 0), declared_fci(b), false, u32::MAX, u32::MAX, t)
                &&& r.layers@.len() == u16_at(b, hd_layers_at(b, 0))
                &&& layers_read(b, notes_end(b), hd_version(b, 0), r.layers@)
                &&& c2.len() == b[layers_end(b)]
                &&& customs_read(b, layers_end(b) + 1, c2)
                &&& r.custom_instruments@ == kept_entries(Version::spec_vanilla_instruments(hd_version(b, 0)), c2)
                &&& r.notes@ == map_of(t).map_values(
                    |n: Note| folded_note(Version::spec_vanilla_instruments(hd_version(b, 0)), c2, n),
                )
            };
        let v = song.header.version.spec_get();
        let fci = Version::spec_vanilla_instruments(v);
        assert(hd_version(b, 0) == v);
        lemma_parts_layers(song, r.layers@);
        lemma_parts_customs(song, c2, r.custom_instruments@);
        lemma_parts_notes(song, t, c2, r.notes@);
    }
}

} // verus!
