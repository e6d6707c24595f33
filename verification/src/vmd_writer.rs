use vstd::prelude::*;

use crate::common::{
    append_u32_le, append_u8, items_bytes, u32_le_bytes, views, words_bytes, write_float3,
    write_float4, write_items, zeros, ItemWriter,
};
use crate::motion::{
    BoneKeyframe, LightKeyframe, MorphKeyframe, Motion, ShadowKeyframe, SpecBoneKeyframe,
    SpecMorphKeyframe, SpecMotion,
};
use crate::common::{
    fits, lemma_u32_le_bytes_of, lemma_u32_le_roundtrip, lemma_words_bytes_of, records_bytes, spec_read_u32,
    ReadError,
};
use crate::pmm::{bone_frame_at, morph_frame_at, named_bone_keyframe, named_morph_keyframe};
use crate::text::{
    encode_char_windows_31j, nul_index, spec_read_string, until_nul, windows_31j_decode,
    windows_31j_encode_char,
};

verus! {

/// The magic string at the start of a motion file.
pub const VERSION_2: &'static str = "Vocaloid Motion Data 0002";

// ---------------------------------------------------------------------------
// Fixed-size text fields
// ---------------------------------------------------------------------------

/// `acc` followed by the Windows-31J bytes of the leading characters of
/// `chars`, taking characters while the bytes stay below `len` and
/// stopping at the first character that does not fit.
pub open spec fn fitting_encoding(chars: Seq<char>, acc: Seq<u8>, len: nat) -> Seq<u8>
    decreases chars.len(),
{
    if chars.len() == 0 {
        acc
    } else {
        let e = windows_31j_encode_char(chars[0]);
        if acc.len() + e.len() < len {
            fitting_encoding(chars.drop_first(), acc + e, len)
        } else {
            acc
        }
    }
}

/// The text field of `len` bytes holding `chars`: the Windows-31J bytes of
/// as many leading characters as fit in fewer than `len` bytes, then zeros.
pub open spec fn fixed_string_bytes(chars: Seq<char>, len: nat) -> Seq<u8> {
    let b = fitting_encoding(chars, Seq::empty(), len);
    b + zeros((len - b.len()) as nat)
}

/// The encoded text never outgrows the field.
pub proof fn lemma_fitting_encoding_len(chars: Seq<char>, acc: Seq<u8>, len: nat)
    requires
        acc.len() <= len,
    ensures
        acc.len() <= fitting_encoding(chars, acc, len).len() <= len,
        acc.len() < len ==> fitting_encoding(chars, acc, len).len() < len,
        fitting_encoding(chars, acc, len).take(acc.len() as int) == acc,
    decreases chars.len(),
{
    if chars.len() > 0 {
        let e = windows_31j_encode_char(chars[0]);
        if acc.len() + e.len() < len {
            lemma_fitting_encoding_len(chars.drop_first(), acc + e, len);
            let r = fitting_encoding(chars.drop_first(), acc + e, len);
            assert(r.take(acc.len() as int) =~= (r.take((acc + e).len() as int)).take(acc.len() as int));
            assert((acc + e).take(acc.len() as int) =~= acc);
        } else {
            assert(acc.take(acc.len() as int) =~= acc);
        }
    } else {
        assert(acc.take(acc.len() as int) =~= acc);
    }
}

/// The Windows-31J bytes of the leading characters of `content` that fit in
/// fewer than `len` bytes.
fn encode_fitting(content: &String, len: usize) -> (bytes: Vec<u8>)
    ensures
        bytes@ == fitting_encoding(content@, Seq::empty(), len as nat),
        bytes@.len() <= len,
{
    let s = content.as_str();
    let n = s.unicode_len();
    let mut content_u8: Vec<u8> = Vec::new();
    let mut i: usize = 0;
    assert(content@.skip(0) =~= content@);
    loop
        invariant_except_break
            i <= n,
            fitting_encoding(content@.skip(i as int), content_u8@, len as nat) == fitting_encoding(
                content@,
                Seq::empty(),
                len as nat,
            ),
        invariant
            n == content@.len(),
            s@ == content@,
            content_u8@.len() <= len,
        ensures
            content_u8@ == fitting_encoding(content@, Seq::empty(), len as nat),
        decreases n - i,
    {
        if i >= n {
            assert(content@.skip(i as int) =~= Seq::<char>::empty());
            break;
        }
        let c = s.get_char(i);
        assert(content@.skip(i as int)[0] == c);
        assert(content@.skip(i as int).drop_first() =~= content@.skip(i + 1));
        let mut char_u8 = encode_char_windows_31j(c);
        if char_u8.len() < len - content_u8.len() {
            content_u8.append(&mut char_u8);
        } else {
            break;
        }
        i = i + 1;
    }
    content_u8
}

/// Appends `n` zero bytes.
fn append_zeros(file: &mut Vec<u8>, n: usize)
    ensures
        final(file)@ == old(file)@ + zeros(n as nat),
{
    let ghost start = file@;
    let mut i: usize = 0;
    assert(file@ =~= start + zeros(0));
    while i < n
        invariant
            i <= n,
            file@ == start + zeros(i as nat),
        decreases n - i,
    {
        file.push(0u8);
        i = i + 1;
        assert(file@ =~= start + zeros(i as nat));
    }
}

/// Appends the bytes of `bytes`.
fn append_bytes(file: &mut Vec<u8>, bytes: &Vec<u8>)
    ensures
        final(file)@ == old(file)@ + bytes@,
{
    let ghost start = file@;
    let mut i: usize = 0;
    assert(file@ =~= start + bytes@.take(0));
    while i < bytes.len()
        invariant
            i <= bytes@.len(),
            file@ == start + bytes@.take(i as int),
        decreases bytes@.len() - i,
    {
        file.push(bytes[i]);
        i = i + 1;
        assert(file@ =~= start + bytes@.take(i as int));
    }
    assert(bytes@.take(bytes@.len() as int) =~= bytes@);
}

/// Appends `content` as a text field of `len` bytes: the Windows-31J bytes
/// of as many leading characters as fit in fewer than `len` bytes, then zeros.
pub fn write_string(file: &mut Vec<u8>, content: String, len: usize)
    ensures
        final(file)@ == old(file)@ + fixed_string_bytes(content@, len as nat),
{
    let content_u8 = encode_fitting(&content, len);
    append_bytes(file, &content_u8);
    append_zeros(file, len - content_u8.len());
}

/// No key occurs twice among `entries`, as in a map.
pub open spec fn keys_distinct(entries: Seq<(Seq<char>, Seq<u8>)>) -> bool {
    forall|i: int, j: int| 0 <= i < j < entries.len() ==> #[trigger] entries[i].0 != #[trigger] entries[j].0
}

/// The bytes that the entry of `entries` with key `key` holds.
pub open spec fn cache_lookup(entries: Seq<(Seq<char>, Seq<u8>)>, key: Seq<char>) -> Option<Seq<u8>>
    decreases entries.len(),
{
    if entries.len() == 0 {
        None
    } else if entries[0].0 == key {
        Some(entries[0].1)
    } else {
        cache_lookup(entries.drop_first(), key)
    }
}

/// The 15-byte name field of `content` written through the cache
/// `entries`: the cached bytes then zeros, or the name as a text field.
pub open spec fn cached_name_field(entries: Seq<(Seq<char>, Seq<u8>)>, content: Seq<char>) -> Seq<u8> {
    match cache_lookup(entries, content) {
        Some(b) => b + zeros((15 - b.len()) as nat),
        None => fixed_string_bytes(content, 15),
    }
}

/// Appends `content` as a 15-byte name field; when `cache` (a map from
/// names to their encoded bytes, each name at most once) holds bytes for
/// `content`, those bytes are written as they are, then zeros.
pub fn write_item_string_cache(file: &mut Vec<u8>, content: String, cache: &Vec<(String, Vec<u8>)>)
    requires
        keys_distinct(views(cache@)),
        cache_lookup(views(cache@), content@) matches Some(b) ==> b.len() <= 15,
    ensures
        final(file)@ == old(file)@ + cached_name_field(views(cache@), content@),
{
    let len: usize = 15;
    let ghost entries = views(cache@);
    let mut i: usize = 0;
    assert(entries.skip(0) =~= entries);
    while i < cache.len()
        invariant
            i <= cache@.len(),
            len == 15,
            file@ == old(file)@,
            entries == views(cache@),
            cache_lookup(entries, content@) matches Some(b) ==> b.len() <= 15,
            cache_lookup(entries.skip(i as int), content@) == cache_lookup(entries, content@),
        decreases cache@.len() - i,
    {
        assert(entries.skip(i as int)[0] == cache@[i as int]@);
        assert(entries.skip(i as int).drop_first() =~= entries.skip(i + 1));
        if cache[i].0 == content {
            let cached = &cache[i].1;
            append_bytes(file, cached);
            append_zeros(file, len - cached.len());
            return;
        }
        i = i + 1;
    }
    let content_u8 = encode_fitting(&content, len);
    append_bytes(file, &content_u8);
    append_zeros(file, len - content_u8.len());
}


// ---------------------------------------------------------------------------
// Keyframe records
// ---------------------------------------------------------------------------

/// An interpolation control point (its coordinate times 127) as a motion
/// file holds it: coordinates above 127 are written as 127.
pub open spec fn clamp_control_point(v: u8) -> u8 {
    if v > 127 {
        127
    } else {
        v
    }
}

/// The 16 interpolation bytes of four control point values: each value,
/// clamped, four times in a row.
pub open spec fn bezier_bytes(p: Seq<u8>) -> Seq<u8> {
    Seq::new(16, |i: int| clamp_control_point(p[i / 4]))
}

/// Appends four interpolation control points, each clamped to 127 and
/// written four times.
pub fn write_bezier_control_point_pair4(file: &mut Vec<u8>, pair: [u8; 4])
    ensures
        final(file)@ == old(file)@ + bezier_bytes(pair@),
{
    let ghost start = file@;
    let mut i: usize = 0;
    assert(file@ =~= start + bezier_bytes(pair@).take(0));
    while i < 4
        invariant
            i <= 4,
            file@ == start + bezier_bytes(pair@).take(4 * i),
        decreases 4 - i,
    {
        let v = pair[i];
        let v = if v > 127 { 127u8 } else { v };
        append_u8(file, v);
        append_u8(file, v);
        append_u8(file, v);
        append_u8(file, v);
        assert(file@ =~= start + bezier_bytes(pair@).take(4 * (i + 1)));
        i = i + 1;
    }
    assert(bezier_bytes(pair@).take(16) =~= bezier_bytes(pair@));
}

/// The 111-byte motion file record of a bone keyframe.
pub open spec fn bone_record_bytes(k: SpecBoneKeyframe) -> Seq<u8> {
    fixed_string_bytes(k.name, 15) + u32_le_bytes(k.frame) + words_bytes(k.trans) + words_bytes(k.rot)
        + bezier_bytes(k.txc) + bezier_bytes(k.tyc) + bezier_bytes(k.tzc) + bezier_bytes(k.rc)
}

/// The 23-byte motion file record of a morph keyframe.
pub open spec fn morph_record_bytes(k: SpecMorphKeyframe) -> Seq<u8> {
    fixed_string_bytes(k.name, 15) + u32_le_bytes(k.frame) + u32_le_bytes(k.weight)
}

/// The 28-byte motion file record of a light keyframe.
pub open spec fn light_record_bytes(k: LightKeyframe) -> Seq<u8> {
    u32_le_bytes(k.frame) + words_bytes(k.color@) + words_bytes(k.direction@)
}

/// The 9-byte motion file record of a self-shadow keyframe.
pub open spec fn shadow_record_bytes(k: ShadowKeyframe) -> Seq<u8> {
    u32_le_bytes(k.frame) + seq![k.mode] + u32_le_bytes(k.dist)
}

/// Appends the motion file record of a bone keyframe.
pub fn write_bone_keyframe(file: &mut Vec<u8>, keyframe: &BoneKeyframe)
    ensures
        final(file)@ == old(file)@ + bone_record_bytes(keyframe@),
{
    let ghost start = file@;
    write_string(file, keyframe.name.clone(), 15);
    append_u32_le(file, keyframe.frame);
    write_float3(file, keyframe.trans);
    write_float4(file, keyframe.rot);
    write_bezier_control_point_pair4(file, keyframe.txc);
    write_bezier_control_point_pair4(file, keyframe.tyc);
    write_bezier_control_point_pair4(file, keyframe.tzc);
    write_bezier_control_point_pair4(file, keyframe.rc);
    assert(file@ =~= start + bone_record_bytes(keyframe@));
}

/// Appends the motion file record of a morph keyframe.
pub fn write_morph_keyframe(file: &mut Vec<u8>, keyframe: &MorphKeyframe)
    ensures
        final(file)@ == old(file)@ + morph_record_bytes(keyframe@),
{
    let ghost start = file@;
    write_string(file, keyframe.name.clone(), 15);
    append_u32_le(file, keyframe.frame);
    append_u32_le(file, keyframe.weight);
    assert(file@ =~= start + morph_record_bytes(keyframe@));
}

/// Appends the motion file record of a light keyframe.
pub fn write_light_keyframe(file: &mut Vec<u8>, keyframe: &LightKeyframe)
    ensures
        final(file)@ == old(file)@ + light_record_bytes(*keyframe),
{
    let ghost start = file@;
    append_u32_le(file, keyframe.frame);
    write_float3(file, keyframe.color);
    write_float3(file, keyframe.direction);
    assert(file@ =~= start + light_record_bytes(*keyframe));
}

/// Appends the motion file record of a self-shadow keyframe.
pub fn write_shadow_keyframe(file: &mut Vec<u8>, keyframe: &ShadowKeyframe)
    ensures
        final(file)@ == old(file)@ + shadow_record_bytes(*keyframe),
{
    let ghost start = file@;
    append_u32_le(file, keyframe.frame);
    append_u8(file, keyframe.mode);
    append_u32_le(file, keyframe.dist);
    assert(file@ =~= start + shadow_record_bytes(*keyframe));
}

impl ItemWriter for BoneKeyframe {
    open spec fn record_bytes(v: SpecBoneKeyframe) -> Seq<u8> {
        bone_record_bytes(v)
    }

    fn write_item(&self, file: &mut Vec<u8>) {
        write_bone_keyframe(file, self)
    }
}

impl ItemWriter for MorphKeyframe {
    open spec fn record_bytes(v: SpecMorphKeyframe) -> Seq<u8> {
        morph_record_bytes(v)
    }

    fn write_item(&self, file: &mut Vec<u8>) {
        write_morph_keyframe(file, self)
    }
}

impl ItemWriter for LightKeyframe {
    open spec fn record_bytes(v: LightKeyframe) -> Seq<u8> {
        light_record_bytes(v)
    }

    fn write_item(&self, file: &mut Vec<u8>) {
        write_light_keyframe(file, self)
    }
}

impl ItemWriter for ShadowKeyframe {
    open spec fn record_bytes(v: ShadowKeyframe) -> Seq<u8> {
        shadow_record_bytes(v)
    }

    fn write_item(&self, file: &mut Vec<u8>) {
        write_shadow_keyframe(file, self)
    }
}

// ---------------------------------------------------------------------------
// Motion files
// ---------------------------------------------------------------------------

/// The motion file of a motion without camera keyframes: the 30-byte
/// [`VERSION_2`] header, the 20-byte model name, the counted bone and
/// morph keyframe records, a zero camera keyframe count, and the counted
/// light and self-shadow keyframe records.
pub open spec fn vmd_bytes(m: SpecMotion) -> Seq<u8> {
    fixed_string_bytes(VERSION_2@, 30) + fixed_string_bytes(m.model_name, 20) + items_bytes::<BoneKeyframe>(
        m.bone_keyframes,
    ) + items_bytes::<MorphKeyframe>(m.morph_keyframes) + u32_le_bytes(0) + items_bytes::<LightKeyframe>(
        m.light_keyframes,
    ) + items_bytes::<ShadowKeyframe>(m.shadow_keyframes)
}

impl Motion {
    /// Appends this motion as a motion file (camera keyframes cannot be
    /// written yet).
    pub fn write_vmd(&self, file: &mut Vec<u8>)
        requires
            self.camera_keyframes@.len() == 0,
        ensures
            final(file)@ == old(file)@ + vmd_bytes(self@),
    {
        let ghost start = file@;
        write_string(file, String::from_str(VERSION_2), 30);
        write_string(file, self.model_name.clone(), 20);
        write_items(file, &self.bone_keyframes);
        write_items(file, &self.morph_keyframes);
        append_u32_le(file, self.camera_keyframes.len() as u32);
        write_items(file, &self.light_keyframes);
        write_items(file, &self.shadow_keyframes);
        assert(file@ =~= start + vmd_bytes(self@));
    }
}


// ---------------------------------------------------------------------------
// Laws
// ---------------------------------------------------------------------------

/// A text field written with `write_string` takes exactly `len` bytes, and
/// unless it is empty it ends with a zero byte.
pub proof fn law_text_field_size(chars: Seq<char>, len: nat)
    ensures
        fixed_string_bytes(chars, len).len() == len,
        len > 0 ==> fixed_string_bytes(chars, len)[len - 1] == 0,
{
    lemma_fitting_encoding_len(chars, Seq::empty(), len);
}

proof fn lemma_nul_index_of_padded(b: Seq<u8>, n: nat, i: int)
    requires
        0 <= i <= b.len(),
        n > 0,
        !b.contains(0u8),
    ensures
        nul_index(b + zeros(n), i) == b.len(),
    decreases b.len() - i,
{
    let s = b + zeros(n);
    if i < b.len() {
        assert(s[i] == b[i]);
        if b[i] == 0 {
            assert(b.contains(0u8));
        }
        lemma_nul_index_of_padded(b, n, i + 1);
    } else {
        assert(s[i] == 0);
    }
}

/// A text field written with `write_string` (of at least one byte, and
/// whose fitted bytes hold no zero) is read back by `read_string` as the
/// decoding of those fitted bytes, wherever it was written.
pub proof fn law_text_field_write_read(prefix: Seq<u8>, chars: Seq<char>, len: nat)
    requires
        len > 0,
        !fitting_encoding(chars, Seq::empty(), len).contains(0u8),
    ensures
        spec_read_string(prefix + fixed_string_bytes(chars, len), prefix.len() as int, len)
            == Ok::<(Seq<char>, int), ReadError>(
            (windows_31j_decode(fitting_encoding(chars, Seq::empty(), len)), prefix.len() as int + len),
        ),
{
    let b = fitting_encoding(chars, Seq::empty(), len);
    lemma_fitting_encoding_len(chars, Seq::empty(), len);
    let field = fixed_string_bytes(chars, len);
    let data = prefix + field;
    assert(data.subrange(prefix.len() as int, prefix.len() as int + len) =~= field);
    lemma_nul_index_of_padded(b, (len - b.len()) as nat, 0);
    assert(until_nul(field) =~= b);
}

/// The motion file record of every bone keyframe takes 111 bytes.
pub proof fn law_bone_record_size(k: BoneKeyframe)
    ensures
        bone_record_bytes(k@).len() == 111,
{
    law_text_field_size(k.name@, 15);
    lemma_words_len(k.trans@);
    lemma_words_len(k.rot@);
}

proof fn lemma_words_len(ws: Seq<u32>)
    ensures
        words_bytes(ws).len() == 4 * ws.len(),
    decreases ws.len(),
{
    if ws.len() > 0 {
        lemma_words_len(ws.drop_last());
    }
}

/// The motion file record of every morph keyframe takes 23 bytes.
pub proof fn law_morph_record_size(k: MorphKeyframe)
    ensures
        morph_record_bytes(k@).len() == 23,
{
    law_text_field_size(k.name@, 15);
}

/// The motion file record of every light keyframe takes 28 bytes.
pub proof fn law_light_record_size(k: LightKeyframe)
    ensures
        light_record_bytes(k).len() == 28,
{
    lemma_words_len(k.color@);
    lemma_words_len(k.direction@);
}

/// The motion file record of every self-shadow keyframe takes 9 bytes.
pub proof fn law_shadow_record_size(k: ShadowKeyframe)
    ensures
        shadow_record_bytes(k).len() == 9,
{
}

proof fn lemma_records_len<T: ItemWriter>(vs: Seq<T::V>, size: nat)
    requires
        forall|i: int| 0 <= i < vs.len() ==> (#[trigger] T::record_bytes(vs[i])).len() == size,
    ensures
        records_bytes::<T>(vs).len() == vs.len() * size,
    decreases vs.len(),
{
    if vs.len() > 0 {
        lemma_records_len::<T>(vs.drop_last(), size);
        assert(T::record_bytes(vs[vs.len() - 1]).len() == size);
        assert(vs.len() * size == (vs.len() - 1) * size + size) by (nonlinear_arith);
    }
}

/// A motion file takes 70 bytes plus the size of each keyframe record:
/// 111 per bone, 23 per morph, 28 per light and 9 per self-shadow keyframe.
pub proof fn law_vmd_size(m: Motion)
    ensures
        vmd_bytes(m@).len() == 70 + 111 * m.bone_keyframes@.len() + 23 * m.morph_keyframes@.len() + 28
            * m.light_keyframes@.len() + 9 * m.shadow_keyframes@.len(),
{
    law_text_field_size(VERSION_2@, 30);
    law_text_field_size(m.model_name@, 20);
    let v = m@;
    assert forall|i: int| 0 <= i < v.bone_keyframes.len() implies (#[trigger] BoneKeyframe::record_bytes(
        v.bone_keyframes[i],
    )).len() == 111 by {
        law_bone_record_size(m.bone_keyframes@[i]);
    }
    assert forall|i: int| 0 <= i < v.morph_keyframes.len() implies (#[trigger] MorphKeyframe::record_bytes(
        v.morph_keyframes[i],
    )).len() == 23 by {
        law_morph_record_size(m.morph_keyframes@[i]);
    }
    assert forall|i: int| 0 <= i < v.light_keyframes.len() implies (#[trigger] LightKeyframe::record_bytes(
        v.light_keyframes[i],
    )).len() == 28 by {
        law_light_record_size(m.light_keyframes@[i]);
    }
    assert forall|i: int| 0 <= i < v.shadow_keyframes.len() implies (#[trigger] ShadowKeyframe::record_bytes(
        v.shadow_keyframes[i],
    )).len() == 9 by {
        law_shadow_record_size(m.shadow_keyframes@[i]);
    }
    lemma_records_len::<BoneKeyframe>(v.bone_keyframes, 111);
    lemma_records_len::<MorphKeyframe>(v.morph_keyframes, 23);
    lemma_records_len::<LightKeyframe>(v.light_keyframes, 28);
    lemma_records_len::<ShadowKeyframe>(v.shadow_keyframes, 9);
    assert(v.bone_keyframes.len() * 111 == 111 * m.bone_keyframes@.len());
    assert(v.morph_keyframes.len() * 23 == 23 * m.morph_keyframes@.len());
    assert(v.light_keyframes.len() * 28 == 28 * m.light_keyframes@.len());
    assert(v.shadow_keyframes.len() * 9 == 9 * m.shadow_keyframes@.len());
}


/// A bone keyframe goes from a project file to a motion file byte for byte:
/// the motion file record of the keyframe that the project record at `p`
/// describes holds the record's frame number and its position and
/// rotation bytes unchanged, and its interpolation bytes clamped to 127,
/// each four times.
pub proof fn law_bone_keyframe_carried(data: Seq<u8>, p: int, name: Seq<char>)
    requires
        fits(data, p, 58),
    ensures
        bone_record_bytes(named_bone_keyframe(name, bone_frame_at(data, p))) == fixed_string_bytes(name, 15)
            + data.subrange(p, p + 4) + data.subrange(p + 28, p + 56) + bezier_bytes(data.subrange(p + 12, p + 16))
            + bezier_bytes(data.subrange(p + 16, p + 20)) + bezier_bytes(data.subrange(p + 20, p + 24))
            + bezier_bytes(data.subrange(p + 24, p + 28)),
{
    lemma_u32_le_bytes_of(data.subrange(p, p + 4));
    lemma_words_bytes_of(data, p + 28, 3);
    lemma_words_bytes_of(data, p + 40, 4);
    assert(data.subrange(p + 28, p + 40) + data.subrange(p + 40, p + 56) =~= data.subrange(p + 28, p + 56));
    let k = named_bone_keyframe(name, bone_frame_at(data, p));
    assert(bone_record_bytes(k) =~= fixed_string_bytes(name, 15) + data.subrange(p, p + 4) + data.subrange(
        p + 28,
        p + 56,
    ) + bezier_bytes(data.subrange(p + 12, p + 16)) + bezier_bytes(data.subrange(p + 16, p + 20)) + bezier_bytes(
        data.subrange(p + 20, p + 24),
    ) + bezier_bytes(data.subrange(p + 24, p + 28)));
}


/// A morph keyframe goes from a project file to a motion file byte for
/// byte: the motion file record of the keyframe that the project record at
/// `p` describes holds the record's frame number and weight bytes unchanged.
pub proof fn law_morph_keyframe_carried(data: Seq<u8>, p: int, name: Seq<char>)
    requires
        fits(data, p, 17),
    ensures
        morph_record_bytes(named_morph_keyframe(name, morph_frame_at(data, p))) == fixed_string_bytes(name, 15)
            + data.subrange(p, p + 4) + data.subrange(p + 12, p + 16),
{
    lemma_u32_le_bytes_of(data.subrange(p, p + 4));
    lemma_u32_le_bytes_of(data.subrange(p + 12, p + 16));
}


/// The Windows-31J bytes of all of `chars`, character by character.
pub open spec fn encode_all(chars: Seq<char>) -> Seq<u8>
    decreases chars.len(),
{
    if chars.len() == 0 {
        Seq::empty()
    } else {
        windows_31j_encode_char(chars[0]) + encode_all(chars.drop_first())
    }
}

proof fn lemma_fitting_is_prefix(chars: Seq<char>, acc: Seq<u8>, len: nat) -> (k: nat)
    requires
        acc.len() < len,
    ensures
        k <= chars.len(),
        fitting_encoding(chars, acc, len) == acc + encode_all(chars.take(k as int)),
        acc.len() + encode_all(chars.take(k as int)).len() < len,
        k < chars.len() ==> acc.len() + encode_all(chars.take(k as int + 1)).len() >= len,
    decreases chars.len(),
{
    if chars.len() == 0 {
        assert(chars.take(0) =~= Seq::<char>::empty());
        assert(acc + Seq::<u8>::empty() =~= acc);
        0
    } else {
        let e = windows_31j_encode_char(chars[0]);
        let t = chars.drop_first();
        assert(chars.take(1).drop_first() =~= Seq::<char>::empty());
        assert(encode_all(chars.take(1)) == e + encode_all(Seq::<char>::empty()));
        assert(e + Seq::<u8>::empty() =~= e);
        if acc.len() + e.len() < len {
            let k0: int = lemma_fitting_is_prefix(t, acc + e, len) as int;
            assert(chars.take(k0 + 1).drop_first() =~= t.take(k0));
            assert(chars.take(k0 + 1)[0] == chars[0]);
            assert(encode_all(chars.take(k0 + 1)) == e + encode_all(t.take(k0)));
            assert((acc + e) + encode_all(t.take(k0)) =~= acc + encode_all(chars.take(k0 + 1)));
            if k0 + 1 < chars.len() {
                assert(chars.take(k0 + 2).drop_first() =~= t.take(k0 + 1));
                assert(chars.take(k0 + 2)[0] == chars[0]);
                assert(encode_all(chars.take(k0 + 2)) == e + encode_all(t.take(k0 + 1)));
            }
            (k0 + 1) as nat
        } else {
            assert(chars.take(0) =~= Seq::<char>::empty());
            assert(acc + Seq::<u8>::empty() =~= acc);
            0
        }
    }
}

/// The text of a field written with `write_string` is the encoding of a
/// leading part `chars.take(k)` of the name: the longest one whose encoding
/// is shorter than `len` (one character more would not fit); zeros fill
/// the rest of the field.
pub proof fn law_text_field_is_longest_fitting_prefix(chars: Seq<char>, len: nat)
    requires
        len > 0,
    ensures
        exists|k: int|
            0 <= k <= chars.len() && #[trigger] encode_all(chars.take(k)).len() < len && (k < chars.len()
                ==> encode_all(chars.take(k + 1)).len() >= len) && fixed_string_bytes(chars, len) == encode_all(
                chars.take(k),
            ) + zeros((len - encode_all(chars.take(k)).len()) as nat),
{
    let k: int = lemma_fitting_is_prefix(chars, Seq::empty(), len) as int;
    assert(Seq::<u8>::empty() + encode_all(chars.take(k)) =~= encode_all(chars.take(k)));
    assert(Seq::<u8>::empty() + encode_all(chars.take(k + 1)) =~= encode_all(chars.take(k + 1)));
    assert(encode_all(chars.take(k)).len() < len);
}


proof fn lemma_record_at<T: ItemWriter>(vs: Seq<T::V>, size: nat, k: int)
    requires
        forall|i: int| 0 <= i < vs.len() ==> (#[trigger] T::record_bytes(vs[i])).len() == size,
        0 <= k < vs.len(),
    ensures
        size * k + size <= records_bytes::<T>(vs).len(),
        records_bytes::<T>(vs).subrange(size * k, size * k + size) == T::record_bytes(vs[k]),
    decreases vs.len(),
{
    let init = vs.drop_last();
    lemma_records_len::<T>(vs, size);
    lemma_records_len::<T>(init, size);
    assert(size * k + size <= vs.len() * size) by (nonlinear_arith)
        requires
            0 <= k < vs.len(),
    ;
    let r = records_bytes::<T>(vs);
    assert(r == records_bytes::<T>(init) + T::record_bytes(vs.last()));
    if k == vs.len() - 1 {
        assert(init.len() * size == size * k) by (nonlinear_arith)
            requires
                init.len() == k,
        ;
        assert(r.subrange(size * k, size * k + size) =~= T::record_bytes(vs[k]));
    } else {
        assert forall|i: int| 0 <= i < init.len() implies (#[trigger] T::record_bytes(init[i])).len() == size by {
            assert(init[i] == vs[i]);
        }
        lemma_record_at::<T>(init, size, k);
        assert(init[k] == vs[k]);
        assert(r.subrange(size * k, size * k + size) =~= records_bytes::<T>(init).subrange(size * k, size * k + size));
    }
}

/// At offset `pos` of `data` stands a counted run of the records of `vs`:
/// a little-endian `u32` holding the number of values, then the record of
/// each value in order, each `size` bytes long.
pub open spec fn counted_records_at<T: ItemWriter>(data: Seq<u8>, pos: int, vs: Seq<T::V>, size: nat) -> bool {
    &&& spec_read_u32(data, pos) == Ok::<(u32, int), ReadError>((vs.len() as u32, pos + 4))
    &&& vs.len() <= u32::MAX
    &&& pos + 4 + size * vs.len() <= data.len()
    &&& forall|k: int|
        0 <= k < vs.len() ==> #[trigger] data.subrange(pos + 4 + size * k, pos + 4 + size * k + size)
            == T::record_bytes(vs[k])
}

proof fn lemma_counted_records<T: ItemWriter>(pre: Seq<u8>, vs: Seq<T::V>, post: Seq<u8>, size: nat)
    requires
        forall|i: int| 0 <= i < vs.len() ==> (#[trigger] T::record_bytes(vs[i])).len() == size,
        vs.len() <= u32::MAX,
    ensures
        items_bytes::<T>(vs).len() == 4 + vs.len() * size,
        counted_records_at::<T>(pre + items_bytes::<T>(vs) + post, pre.len() as int, vs, size),
{
    let n = vs.len() as u32;
    lemma_u32_le_roundtrip(n);
    lemma_records_len::<T>(vs, size);
    let d = pre + items_bytes::<T>(vs) + post;
    let p = pre.len() as int;
    let r = records_bytes::<T>(vs);
    assert(items_bytes::<T>(vs) == u32_le_bytes(n) + r);
    assert(d.len() == p + 4 + r.len() + post.len());
    assert(d.subrange(p, p + 4) =~= u32_le_bytes(n));
    assert(spec_read_u32(d, p) == Ok::<(u32, int), ReadError>((n, p + 4)));
    assert(size * vs.len() == vs.len() * size) by (nonlinear_arith);
    assert forall|k: int| 0 <= k < vs.len() implies #[trigger] d.subrange(
        p + 4 + size * k,
        p + 4 + size * k + size,
    ) == T::record_bytes(vs[k]) by {
        lemma_record_at::<T>(vs, size, k);
        assert(d.subrange(p + 4 + size * k, p + 4 + size * k + size) =~= r.subrange(size * k, size * k + size));
    }
}

proof fn lemma_regroup(a: Seq<u8>, b: Seq<u8>, c: Seq<u8>, d: Seq<u8>, e: Seq<u8>, f: Seq<u8>, g: Seq<u8>)
    ensures
        a + b + c + d + e + f + g == (a + b) + c + (d + e + f + g),
        a + b + c + d + e + f + g == (a + b + c) + d + (e + f + g),
        a + b + c + d + e + f + g == (a + b + c + d) + e + (f + g),
        a + b + c + d + e + f + g == (a + b + c + d + e) + f + g,
        a + b + c + d + e + f + g == (a + b + c + d + e + f) + g + Seq::<u8>::empty(),
{
    assert(a + b + c + d + e + f + g =~= (a + b) + c + (d + e + f + g));
    assert(a + b + c + d + e + f + g =~= (a + b + c) + d + (e + f + g));
    assert(a + b + c + d + e + f + g =~= (a + b + c + d) + e + (f + g));
    assert(a + b + c + d + e + f + g =~= (a + b + c + d + e + f) + g + Seq::<u8>::empty());
}

proof fn lemma_vmd_bones(m: Motion)
    requires
        m.bone_keyframes@.len() <= u32::MAX,
        m.morph_keyframes@.len() <= u32::MAX,
        m.light_keyframes@.len() <= u32::MAX,
        m.shadow_keyframes@.len() <= u32::MAX,
    ensures
        counted_records_at::<BoneKeyframe>(vmd_bytes(m@), 50, m@.bone_keyframes, 111),
        items_bytes::<BoneKeyframe>(m@.bone_keyframes).len() == 4 + 111 * m@.bone_keyframes.len(),
{
    let v = m@;
    law_text_field_size(VERSION_2@, 30);
    law_text_field_size(m.model_name@, 20);
    let h = fixed_string_bytes(VERSION_2@, 30);
    let nm = fixed_string_bytes(v.model_name, 20);
    let ib = items_bytes::<BoneKeyframe>(v.bone_keyframes);
    let im = items_bytes::<MorphKeyframe>(v.morph_keyframes);
    let c = u32_le_bytes(0);
    let il = items_bytes::<LightKeyframe>(v.light_keyframes);
    let is = items_bytes::<ShadowKeyframe>(v.shadow_keyframes);
    let d = vmd_bytes(v);
    lemma_u32_le_roundtrip(0);
    lemma_regroup(h, nm, ib, im, c, il, is);
    let nb = v.bone_keyframes.len();
    let nmo = v.morph_keyframes.len();
    let nl = v.light_keyframes.len();
    assert forall|i: int| 0 <= i < nb implies (#[trigger] BoneKeyframe::record_bytes(v.bone_keyframes[i])).len()
        == 111 by {
        law_bone_record_size(m.bone_keyframes@[i]);
    }
    lemma_counted_records::<BoneKeyframe>(h + nm, v.bone_keyframes, im + c + il + is, 111);
}

proof fn lemma_vmd_morphs(m: Motion)
    requires
        m.bone_keyframes@.len() <= u32::MAX,
        m.morph_keyframes@.len() <= u32::MAX,
        m.light_keyframes@.len() <= u32::MAX,
        m.shadow_keyframes@.len() <= u32::MAX,
    ensures
        counted_records_at::<MorphKeyframe>(
            vmd_bytes(m@),
            54int + 111 * m@.bone_keyframes.len(),
            m@.morph_keyframes,
            23,
        ),
        items_bytes::<MorphKeyframe>(m@.morph_keyframes).len() == 4 + 23 * m@.morph_keyframes.len(),
{
    let v = m@;
    law_text_field_size(VERSION_2@, 30);
    law_text_field_size(m.model_name@, 20);
    let h = fixed_string_bytes(VERSION_2@, 30);
    let nm = fixed_string_bytes(v.model_name, 20);
    let ib = items_bytes::<BoneKeyframe>(v.bone_keyframes);
    let im = items_bytes::<MorphKeyframe>(v.morph_keyframes);
    let c = u32_le_bytes(0);
    let il = items_bytes::<LightKeyframe>(v.light_keyframes);
    let is = items_bytes::<ShadowKeyframe>(v.shadow_keyframes);
    let d = vmd_bytes(v);
    lemma_u32_le_roundtrip(0);
    lemma_regroup(h, nm, ib, im, c, il, is);
    let nb = v.bone_keyframes.len();
    let nmo = v.morph_keyframes.len();
    let nl = v.light_keyframes.len();
    lemma_vmd_bones(m);
    assert forall|i: int| 0 <= i < nmo implies (#[trigger] MorphKeyframe::record_bytes(v.morph_keyframes[i])).len()
        == 23 by {
        law_morph_record_size(m.morph_keyframes@[i]);
    }
    lemma_counted_records::<MorphKeyframe>(h + nm + ib, v.morph_keyframes, c + il + is, 23);
}

proof fn lemma_vmd_lights(m: Motion)
    requires
        m.bone_keyframes@.len() <= u32::MAX,
        m.morph_keyframes@.len() <= u32::MAX,
        m.light_keyframes@.len() <= u32::MAX,
        m.shadow_keyframes@.len() <= u32::MAX,
    ensures
        spec_read_u32(vmd_bytes(m@), 58int + 111 * m@.bone_keyframes.len() + 23 * m@.morph_keyframes.len())
            == Ok::<(u32, int), ReadError>(
            (0, 62int + 111 * m@.bone_keyframes.len() + 23 * m@.morph_keyframes.len()),
        ),
        counted_records_at::<LightKeyframe>(
            vmd_bytes(m@),
            62int + 111 * m@.bone_keyframes.len() + 23 * m@.morph_keyframes.len(),
            m@.light_keyframes,
            28,
        ),
        items_bytes::<LightKeyframe>(m@.light_keyframes).len() == 4 + 28 * m@.light_keyframes.len(),
{
    let v = m@;
    law_text_field_size(VERSION_2@, 30);
    law_text_field_size(m.model_name@, 20);
    let h = fixed_string_bytes(VERSION_2@, 30);
    let nm = fixed_string_bytes(v.model_name, 20);
    let ib = items_bytes::<BoneKeyframe>(v.bone_keyframes);
    let im = items_bytes::<MorphKeyframe>(v.morph_keyframes);
    let c = u32_le_bytes(0);
    let il = items_bytes::<LightKeyframe>(v.light_keyframes);
    let is = items_bytes::<ShadowKeyframe>(v.shadow_keyframes);
    let d = vmd_bytes(v);
    lemma_u32_le_roundtrip(0);
    lemma_regroup(h, nm, ib, im, c, il, is);
    let nb = v.bone_keyframes.len();
    let nmo = v.morph_keyframes.len();
    let nl = v.light_keyframes.len();
    lemma_vmd_bones(m);
    lemma_vmd_morphs(m);
    let cp: int = 58int + 111 * nb + 23 * nmo;
    assert(d.subrange(cp, cp + 4) =~= c);
    assert forall|i: int| 0 <= i < nl implies (#[trigger] LightKeyframe::record_bytes(v.light_keyframes[i])).len()
        == 28 by {
        law_light_record_size(m.light_keyframes@[i]);
    }
    lemma_counted_records::<LightKeyframe>(h + nm + ib + im + c, v.light_keyframes, is, 28);
}

proof fn lemma_vmd_shadows(m: Motion)
    requires
        m.bone_keyframes@.len() <= u32::MAX,
        m.morph_keyframes@.len() <= u32::MAX,
        m.light_keyframes@.len() <= u32::MAX,
        m.shadow_keyframes@.len() <= u32::MAX,
    ensures
        counted_records_at::<ShadowKeyframe>(
            vmd_bytes(m@),
            66int + 111 * m@.bone_keyframes.len() + 23 * m@.morph_keyframes.len() + 28 * m@.light_keyframes.len(),
            m@.shadow_keyframes,
            9,
        ),
{
    let v = m@;
    law_text_field_size(VERSION_2@, 30);
    law_text_field_size(m.model_name@, 20);
    let h = fixed_string_bytes(VERSION_2@, 30);
    let nm = fixed_string_bytes(v.model_name, 20);
    let ib = items_bytes::<BoneKeyframe>(v.bone_keyframes);
    let im = items_bytes::<MorphKeyframe>(v.morph_keyframes);
    let c = u32_le_bytes(0);
    let il = items_bytes::<LightKeyframe>(v.light_keyframes);
    let is = items_bytes::<ShadowKeyframe>(v.shadow_keyframes);
    let d = vmd_bytes(v);
    lemma_u32_le_roundtrip(0);
    lemma_regroup(h, nm, ib, im, c, il, is);
    let nb = v.bone_keyframes.len();
    let nmo = v.morph_keyframes.len();
    let nl = v.light_keyframes.len();
    lemma_vmd_bones(m);
    lemma_vmd_morphs(m);
    lemma_vmd_lights(m);
    assert forall|i: int| 0 <= i < v.shadow_keyframes.len() implies (#[trigger] ShadowKeyframe::record_bytes(
        v.shadow_keyframes[i],
    )).len() == 9 by {
        law_shadow_record_size(m.shadow_keyframes@[i]);
    }
    lemma_counted_records::<ShadowKeyframe>(h + nm + ib + im + c + il, v.shadow_keyframes, Seq::empty(), 9);
}

proof fn lemma_vmd_head(m: Motion)
    ensures
        vmd_bytes(m@).subrange(0, 30) == fixed_string_bytes(VERSION_2@, 30),
        vmd_bytes(m@).subrange(30, 50) == fixed_string_bytes(m@.model_name, 20),
{
    let v = m@;
    law_text_field_size(VERSION_2@, 30);
    law_text_field_size(v.model_name, 20);
    let h = fixed_string_bytes(VERSION_2@, 30);
    let nm = fixed_string_bytes(v.model_name, 20);
    let ib = items_bytes::<BoneKeyframe>(v.bone_keyframes);
    let im = items_bytes::<MorphKeyframe>(v.morph_keyframes);
    let c = u32_le_bytes(0);
    let il = items_bytes::<LightKeyframe>(v.light_keyframes);
    let is = items_bytes::<ShadowKeyframe>(v.shadow_keyframes);
    lemma_regroup(h, nm, ib, im, c, il, is);
    let r = ib + im + c + il + is;
    assert(vmd_bytes(v) =~= (h + nm) + r);
    assert(vmd_bytes(v).subrange(0, 30) =~= h);
    assert(vmd_bytes(v).subrange(30, 50) =~= nm);
}

/// A motion file written by `write_vmd` reads back part by part: the
/// 30-byte header field, the 20-byte model name field, then the bone and
/// morph keyframes, a camera keyframe count of 0, the light and the
/// self-shadow keyframes, each as a `u32` holding the number of keyframes
/// followed by one record per keyframe in order (111 bytes per bone, 23 per
/// morph, 28 per light and 9 per self-shadow keyframe).
pub proof fn law_vmd_sections(m: Motion)
    requires
        m.bone_keyframes@.len() <= u32::MAX,
        m.morph_keyframes@.len() <= u32::MAX,
        m.light_keyframes@.len() <= u32::MAX,
        m.shadow_keyframes@.len() <= u32::MAX,
    ensures
        vmd_bytes(m@).subrange(0, 30) == fixed_string_bytes(VERSION_2@, 30),
        vmd_bytes(m@).subrange(30, 50) == fixed_string_bytes(m@.model_name, 20),
        counted_records_at::<BoneKeyframe>(vmd_bytes(m@), 50, m@.bone_keyframes, 111),
        counted_records_at::<MorphKeyframe>(
            vmd_bytes(m@),
            54int + 111 * m@.bone_keyframes.len(),
            m@.morph_keyframes,
            23,
        ),
        spec_read_u32(vmd_bytes(m@), 58int + 111 * m@.bone_keyframes.len() + 23 * m@.morph_keyframes.len())
            == Ok::<(u32, int), ReadError>(
            (0, 62int + 111 * m@.bone_keyframes.len() + 23 * m@.morph_keyframes.len()),
        ),
        counted_records_at::<LightKeyframe>(
            vmd_bytes(m@),
            62int + 111 * m@.bone_keyframes.len() + 23 * m@.morph_keyframes.len(),
            m@.light_keyframes,
            28,
        ),
        counted_records_at::<ShadowKeyframe>(
            vmd_bytes(m@),
            66int + 111 * m@.bone_keyframes.len() + 23 * m@.morph_keyframes.len() + 28 * m@.light_keyframes.len(),
            m@.shadow_keyframes,
            9,
        ),
{
    lemma_vmd_head(m);
    lemma_vmd_bones(m);
    lemma_vmd_morphs(m);
    lemma_vmd_lights(m);
    lemma_vmd_shadows(m);
}


/// The interpolation bytes of a motion file record give each of the four
/// control point values four times in a row, values above 127 written as
/// 127 and the others unchanged.
pub proof fn law_bezier_bytes(p: Seq<u8>)
    requires
        p.len() == 4,
    ensures
        bezier_bytes(p).len() == 16,
        forall|i: int|
            0 <= i < 16 ==> #[trigger] bezier_bytes(p)[i] == (if p[i / 4] > 127 {
                127u8
            } else {
                p[i / 4]
            }),
{
}


proof fn lemma_cache_lookup(entries: Seq<(Seq<char>, Seq<u8>)>, key: Seq<char>)
    requires
        keys_distinct(entries),
    ensures
        (forall|j: int| 0 <= j < entries.len() ==> (#[trigger] entries[j]).0 != key) ==> cache_lookup(entries, key)
            is None,
        forall|j: int|
            0 <= j < entries.len() && (#[trigger] entries[j]).0 == key ==> cache_lookup(entries, key) == Some(
                entries[j].1,
            ),
    decreases entries.len(),
{
    if entries.len() > 0 {
        let rest = entries.drop_first();
        assert(keys_distinct(rest)) by {
            assert forall|i: int, j: int| 0 <= i < j < rest.len() implies #[trigger] rest[i].0 != #[trigger] rest[j].0 by {
                assert(rest[i] == entries[i + 1] && rest[j] == entries[j + 1]);
            }
        }
        lemma_cache_lookup(rest, key);
        assert forall|j: int| 0 <= j < entries.len() && (#[trigger] entries[j]).0 == key implies cache_lookup(
            entries,
            key,
        ) == Some(entries[j].1) by {
            if j > 0 {
                assert(rest[j - 1] == entries[j]);
                assert(entries[0].0 != entries[j].0);
            }
        }
        if forall|j: int| 0 <= j < entries.len() ==> (#[trigger] entries[j]).0 != key {
            assert forall|j: int| 0 <= j < rest.len() implies (#[trigger] rest[j]).0 != key by {
                assert(rest[j] == entries[j + 1]);
            }
        }
    }
}

/// A name written through the cache: when the cache holds an entry for the
/// name, the field is that entry's bytes then zeros; when it holds none,
/// the field is the name written with `write_string`.
pub proof fn law_cached_name_field(entries: Seq<(Seq<char>, Seq<u8>)>, content: Seq<char>, j: int)
    requires
        keys_distinct(entries),
    ensures
        0 <= j < entries.len() && entries[j].0 == content ==> cached_name_field(entries, content) == entries[j].1
            + zeros((15 - entries[j].1.len()) as nat),
        (forall|i: int| 0 <= i < entries.len() ==> (#[trigger] entries[i]).0 != content) ==> cached_name_field(
            entries,
            content,
        ) == fixed_string_bytes(content, 15),
{
    lemma_cache_lookup(entries, content);
    if 0 <= j < entries.len() && entries[j].0 == content {
        assert(entries[j].0 == content);
    }
}

} // verus!
