use std::collections::HashMap;
use vstd::prelude::*;

use crate::common::{
    available, fits, le_words, lemma_fix_items_len, lemma_fixed_width_run, lemma_u8_run,
    items_agree, read_agrees, try_read_fix_items, read_flag, try_read_items, spec_read_items, views,
    U32Item, try_read_float3, try_read_float4, read_u32, read_u8,
    read_up_to, spec_read_bytes, spec_read_fix_items, spec_read_u32, spec_read_u8, spec_u32_le, ByteCursor,
    FlagItem, ItemReader, ReadError, U8Item, zeros, law_fix_items_split, prepend_items,
};
use crate::motion::{BoneKeyframe, MorphKeyframe, Motion, SpecBoneKeyframe, SpecMorphKeyframe, SpecMotion};
use crate::text::{decode_windows_31j, try_read_string, spec_read_string, until_nul, windows_31j_decode};

verus! {

broadcast use {vstd::std_specs::hash::group_hash_axioms, crate::common::lemma_pos_in_bounds};

/// The magic string at the start of a project file.
pub const PMM_HEADER: &'static str = "Polygon Movie maker 0002";

/// `s` starts with `prefix`.
pub open spec fn starts_with(s: Seq<char>, prefix: Seq<char>) -> bool {
    prefix.len() <= s.len() && s.take(prefix.len() as int) == prefix
}

// ---------------------------------------------------------------------------
// Strings and the file header
// ---------------------------------------------------------------------------

/// A length-prefixed string at `pos`: a length byte `n`, then up to `n`
/// bytes (as many as are left), zero-filled to `n` bytes and decoded as
/// Windows-31J; the offset after the bytes actually there.
pub open spec fn spec_read_v_string(data: Seq<u8>, pos: int) -> Result<(Seq<char>, int), ReadError> {
    match spec_read_u8(data, pos) {
        Err(e) => Err(e),
        Ok((n, p)) => {
            let k = available(data, p, n as nat);
            Ok((windows_31j_decode(data.subrange(p, p + k) + zeros((n - k) as nat)), p + k))
        },
    }
}

/// Reads a length-prefixed Windows-31J string, or reports that the file
/// ends before its length byte.
pub fn try_read_v_string(file: &mut ByteCursor) -> (res: Result<String, ReadError>)
    ensures
        final(file).bytes() == old(file).bytes(),
        read_agrees(spec_read_v_string(old(file).bytes(), old(file).pos()), res, final(file).pos()),
{
    let len = read_u8(file)?;
    let mut raw = read_up_to(file, len as usize);
    let ghost got = raw@;
    while raw.len() < len as usize
        invariant
            got.len() <= raw@.len() <= len,
            raw@ == got + zeros((raw@.len() - got.len()) as nat),
        decreases len - raw@.len(),
    {
        raw.push(0u8);
        assert(raw@ =~= got + zeros((raw@.len() - got.len()) as nat));
    }
    Ok(decode_windows_31j(raw.as_slice()))
}

/// Reads a length-prefixed Windows-31J string; the length byte must be
/// there (the text itself may run short and is then zero-filled).
pub fn read_v_string(file: &mut ByteCursor) -> (s: String)
    requires
        spec_read_v_string(old(file).bytes(), old(file).pos()) is Ok,
    ensures
        final(file).bytes() == old(file).bytes(),
        spec_read_v_string(old(file).bytes(), old(file).pos())->Ok_0 == (s@, final(file).pos()),
{
    match try_read_v_string(file) {
        Ok(s) => s,
        Err(_) => unreached(),
    }
}

/// The header of a project file at `pos`: a 30-byte text field that must
/// start with [`PMM_HEADER`], then 24 bytes of view settings.
pub open spec fn spec_read_header(data: Seq<u8>, pos: int) -> Result<((), int), ReadError> {
    match spec_read_string(data, pos, 30) {
        Err(e) => Err(e),
        Ok((h, p)) => if !starts_with(h, PMM_HEADER@) {
            Err(ReadError::InvalidHeader)
        } else if fits(data, p, 24) {
            Ok(((), p + 24))
        } else {
            Err(ReadError::UnexpectedEof)
        },
    }
}

/// Whether `s` starts with `prefix`.
fn str_starts_with(s: &str, prefix: &str) -> (b: bool)
    ensures
        b == starts_with(s@, prefix@),
{
    let n = prefix.unicode_len();
    let m = s.unicode_len();
    if n > m {
        return false;
    }
    let mut i: usize = 0;
    while i < n
        invariant
            n == prefix@.len(),
            m == s@.len(),
            n <= m,
            i <= n,
            forall|j: int| 0 <= j < i ==> s@[j] == prefix@[j],
        decreases n - i,
    {
        if s.get_char(i) != prefix.get_char(i) {
            assert(s@.take(n as int)[i as int] != prefix@[i as int]);
            return false;
        }
        i = i + 1;
    }
    assert(s@.take(n as int) =~= prefix@);
    true
}

/// Reads and checks the header of a project file, or reports a header
/// that does not start with [`PMM_HEADER`] or ends early.
pub fn try_read_header(file: &mut ByteCursor) -> (res: Result<(), ReadError>)
    ensures
        final(file).bytes() == old(file).bytes(),
        read_agrees(spec_read_header(old(file).bytes(), old(file).pos()), res, final(file).pos()),
{
    let header_string = try_read_string(file, 30)?;
    if !str_starts_with(header_string.as_str(), PMM_HEADER) {
        return Err(ReadError::InvalidHeader);
    }
    let _view_width = read_u32(file)?;
    let _view_height = read_u32(file)?;
    let _frame_width = read_u32(file)?;
    let _edit_view_angle = read_u32(file)?;
    let _camera_light_accessory_edited = read_flag(file)?;
    let _camera_panel_opened = read_flag(file)?;
    let _light_panel_opened = read_flag(file)?;
    let _accessory_panel_opened = read_flag(file)?;
    let _bone_panel_opened = read_flag(file)?;
    let _morph_panel_opened = read_flag(file)?;
    let _self_shadow_panel = read_flag(file)?;
    let _selected_model_index = read_u8(file)?;
    Ok(())
}

/// Reads past the header of a project file, which must be complete and
/// start with [`PMM_HEADER`].
pub fn read_header(file: &mut ByteCursor)
    requires
        spec_read_header(old(file).bytes(), old(file).pos()) is Ok,
    ensures
        final(file).bytes() == old(file).bytes(),
        final(file).pos() == spec_read_header(old(file).bytes(), old(file).pos())->Ok_0.1,
{
    match try_read_header(file) {
        Ok(()) => {},
        Err(_) => unreached(),
    }
}


// ---------------------------------------------------------------------------
// Keyframe records
// ---------------------------------------------------------------------------

/// A bone keyframe as a project file stores it: linked to the next keyframe
/// of the same bone by its data index (0 ends the chain).
#[derive(Debug, Clone, Copy, PartialEq)]
pub struct LinkedBoneFrame {
    pub next: u32,
    pub frame: u32,
    pub trans: [u32; 3],
    pub rot: [u32; 4],
    pub txc: [u8; 4],
    pub tyc: [u8; 4],
    pub tzc: [u8; 4],
    pub rc: [u8; 4],
}

/// A morph keyframe as a project file stores it, linked like [`LinkedBoneFrame`].
#[derive(Debug, Clone, Copy, PartialEq)]
pub struct LinkedMorphFrame {
    pub next: u32,
    pub frame: u32,
    pub weight: u32,
}

/// The value of a [`LinkedBoneFrame`].
pub struct SpecLinkedBoneFrame {
    pub next: u32,
    pub frame: u32,
    pub trans: Seq<u32>,
    pub rot: Seq<u32>,
    pub txc: Seq<u8>,
    pub tyc: Seq<u8>,
    pub tzc: Seq<u8>,
    pub rc: Seq<u8>,
}

impl View for LinkedBoneFrame {
    type V = SpecLinkedBoneFrame;

    open spec fn view(&self) -> SpecLinkedBoneFrame {
        SpecLinkedBoneFrame {
            next: self.next,
            frame: self.frame,
            trans: self.trans@,
            rot: self.rot@,
            txc: self.txc@,
            tyc: self.tyc@,
            tzc: self.tzc@,
            rc: self.rc@,
        }
    }
}

impl View for LinkedMorphFrame {
    type V = LinkedMorphFrame;

    open spec fn view(&self) -> LinkedMorphFrame {
        *self
    }
}

/// The stored bone keyframes of a model by data index, by value.
pub open spec fn bone_frame_views(m: Map<u32, LinkedBoneFrame>) -> Map<u32, SpecLinkedBoneFrame> {
    m.map_values(|f: LinkedBoneFrame| f@)
}

/// The 58-byte bone keyframe record at `p` (after its optional data index):
/// frame, previous index, next index, four times four interpolation bytes,
/// position, rotation, then two flag bytes.
pub open spec fn bone_frame_at(data: Seq<u8>, p: int) -> SpecLinkedBoneFrame {
    SpecLinkedBoneFrame {
        next: spec_u32_le(data.subrange(p + 8, p + 12)),
        frame: spec_u32_le(data.subrange(p, p + 4)),
        trans: le_words(data, p + 28, 3),
        rot: le_words(data, p + 40, 4),
        txc: data.subrange(p + 12, p + 16),
        tyc: data.subrange(p + 16, p + 20),
        tzc: data.subrange(p + 20, p + 24),
        rc: data.subrange(p + 24, p + 28),
    }
}

/// The 17-byte morph keyframe record at `p` (after its optional data index):
/// frame, previous index, next index, weight, then a flag byte.
pub open spec fn morph_frame_at(data: Seq<u8>, p: int) -> LinkedMorphFrame {
    LinkedMorphFrame {
        next: spec_u32_le(data.subrange(p + 8, p + 12)),
        frame: spec_u32_le(data.subrange(p, p + 4)),
        weight: spec_u32_le(data.subrange(p + 12, p + 16)),
    }
}

/// Where the next keyframe record goes, and the offset of its body: the
/// first `names_len` records of a model take data indexes 0, 1, 2, ... in
/// order (the count of records stored so far); later ones carry their data
/// index as a leading `u32`.
pub open spec fn spec_frame_index(data: Seq<u8>, pos: int, stored: nat, names_len: nat) -> Result<(u32, int), ReadError> {
    if stored < names_len {
        Ok((stored as u32, pos))
    } else {
        spec_read_u32(data, pos)
    }
}

/// The stored bone keyframes after reading one bone keyframe record at `pos`.
pub open spec fn spec_read_bone_frame(
    data: Seq<u8>,
    pos: int,
    frames: Map<u32, SpecLinkedBoneFrame>,
    names_len: nat,
) -> Result<(Map<u32, SpecLinkedBoneFrame>, int), ReadError> {
    match spec_frame_index(data, pos, frames.len(), names_len) {
        Err(e) => Err(e),
        Ok((index, p)) => if fits(data, p, 58) {
            Ok((frames.insert(index, bone_frame_at(data, p)), p + 58))
        } else {
            Err(ReadError::UnexpectedEof)
        },
    }
}

/// The stored morph keyframes after reading one morph keyframe record at `pos`.
pub open spec fn spec_read_morph_frame(
    data: Seq<u8>,
    pos: int,
    frames: Map<u32, LinkedMorphFrame>,
    names_len: nat,
) -> Result<(Map<u32, LinkedMorphFrame>, int), ReadError> {
    match spec_frame_index(data, pos, frames.len(), names_len) {
        Err(e) => Err(e),
        Ok((index, p)) => if fits(data, p, 17) {
            Ok((frames.insert(index, morph_frame_at(data, p)), p + 17))
        } else {
            Err(ReadError::UnexpectedEof)
        },
    }
}

/// The four interpolation bytes read as a run of single-byte items.
fn read_control_points(file: &mut ByteCursor) -> (res: Result<[u8; 4], ReadError>)
    ensures
        final(file).bytes() == old(file).bytes(),
        read_agrees(spec_read_bytes(old(file).bytes(), old(file).pos(), 4), res, final(file).pos()),
{
    let ghost data = file.bytes();
    let ghost p0 = file.pos();
    proof {
        lemma_u8_run(data, p0, 4);
    }
    let v = try_read_fix_items(file, 4, &U8Item)?;
    proof {
        lemma_fix_items_len(U8Item, data, p0, 4);
    }
    let r = [v[0], v[1], v[2], v[3]];
    assert(r@ =~= data.subrange(p0, p0 + 4));
    Ok(r)
}


/// Reads one bone keyframe record into `keyframes`: its data index is the
/// count of records stored so far while that is below the number of bones
/// (`names.len()`), and a leading `u32` of the record after that. A record
/// cut short by the end of the file is reported and stores nothing.
pub fn try_read_bone_frame(
    file: &mut ByteCursor,
    keyframes: &mut HashMap<u32, LinkedBoneFrame>,
    names: &Vec<String>,
) -> (res: Result<(), ReadError>)
    ensures
        final(file).bytes() == old(file).bytes(),
        match spec_read_bone_frame(
            old(file).bytes(),
            old(file).pos(),
            bone_frame_views(old(keyframes)@),
            names@.len(),
        ) {
            Ok((m, p)) => res is Ok && bone_frame_views(final(keyframes)@) == m && final(file).pos() == p,
            Err(e) => res == Err::<(), ReadError>(e) && final(keyframes)@ == old(keyframes)@,
        },
{
    let ghost data = file.bytes();
    let ghost old_map = keyframes@;
    assert(bone_frame_views(old_map).dom() =~= old_map.dom());
    let data_index = if keyframes.len() < names.len() {
        keyframes.len() as u32
    } else {
        read_u32(file)?
    };
    let ghost p = file.pos();
    let frame = read_u32(file)?;
    let _pre_index = read_u32(file)?;
    let next_index = read_u32(file)?;
    let txc = read_control_points(file)?;
    let tyc = read_control_points(file)?;
    let tzc = read_control_points(file)?;
    let rc = read_control_points(file)?;
    let trans = try_read_float3(file)?;
    let rot = try_read_float4(file)?;
    let _selected = read_flag(file)?;
    let _physics_disabled = read_flag(file)?;
    let record = LinkedBoneFrame { next: next_index, frame, trans, rot, txc, tyc, tzc, rc };
    assert(record@ == bone_frame_at(data, p));
    keyframes.insert(data_index, record);
    assert(bone_frame_views(keyframes@) =~= bone_frame_views(old_map).insert(data_index, record@));
    Ok(())
}

/// Reads one bone keyframe record into `keyframes`, indexed as in
/// [`try_read_bone_frame`]; the record must be complete.
pub fn read_bone_frame(
    file: &mut ByteCursor,
    keyframes: &mut HashMap<u32, LinkedBoneFrame>,
    names: &Vec<String>,
)
    requires
        spec_read_bone_frame(
            old(file).bytes(),
            old(file).pos(),
            bone_frame_views(old(keyframes)@),
            names@.len(),
        ) is Ok,
    ensures
        final(file).bytes() == old(file).bytes(),
        spec_read_bone_frame(
            old(file).bytes(),
            old(file).pos(),
            bone_frame_views(old(keyframes)@),
            names@.len(),
        )->Ok_0 == (bone_frame_views(final(keyframes)@), final(file).pos()),
{
    match try_read_bone_frame(file, keyframes, names) {
        Ok(()) => {},
        Err(_) => unreached(),
    }
}

/// Reads one morph keyframe record into `keyframes`, indexed as in
/// [`try_read_bone_frame`]; a record cut short is reported and stores
/// nothing.
pub fn try_read_morph_frame(
    file: &mut ByteCursor,
    keyframes: &mut HashMap<u32, LinkedMorphFrame>,
    names: &Vec<String>,
) -> (res: Result<(), ReadError>)
    ensures
        final(file).bytes() == old(file).bytes(),
        match spec_read_morph_frame(old(file).bytes(), old(file).pos(), old(keyframes)@, names@.len()) {
            Ok((m, p)) => res is Ok && final(keyframes)@ == m && final(file).pos() == p,
            Err(e) => res == Err::<(), ReadError>(e) && final(keyframes)@ == old(keyframes)@,
        },
{
    let ghost data = file.bytes();
    let data_index = if keyframes.len() < names.len() {
        keyframes.len() as u32
    } else {
        read_u32(file)?
    };
    let ghost p = file.pos();
    let frame = read_u32(file)?;
    let _pre_index = read_u32(file)?;
    let next_index = read_u32(file)?;
    let weight = read_u32(file)?;
    let _selected = read_flag(file)?;
    let record = LinkedMorphFrame { next: next_index, frame, weight };
    assert(record == morph_frame_at(data, p));
    keyframes.insert(data_index, record);
    Ok(())
}

/// Reads one morph keyframe record into `keyframes`, indexed as in
/// [`try_read_bone_frame`]; the record must be complete.
pub fn read_morph_frame(
    file: &mut ByteCursor,
    keyframes: &mut HashMap<u32, LinkedMorphFrame>,
    names: &Vec<String>,
)
    requires
        spec_read_morph_frame(old(file).bytes(), old(file).pos(), old(keyframes)@, names@.len()) is Ok,
    ensures
        final(file).bytes() == old(file).bytes(),
        spec_read_morph_frame(old(file).bytes(), old(file).pos(), old(keyframes)@, names@.len())->Ok_0
            == (final(keyframes)@, final(file).pos()),
{
    match try_read_morph_frame(file, keyframes, names) {
        Ok(()) => {},
        Err(_) => unreached(),
    }
}


// ---------------------------------------------------------------------------
// Records that are read past
// ---------------------------------------------------------------------------

/// Items that are pairs of little-endian `u32` words.
#[derive(Clone, Copy)]
pub struct U32PairItem;

impl ItemReader for U32PairItem {
    type Item = (u32, u32);

    open spec fn spec_read(&self, data: Seq<u8>, pos: int) -> Result<((u32, u32), int), ReadError> {
        if fits(data, pos, 8) {
            Ok(
                (
                    (spec_u32_le(data.subrange(pos, pos + 4)), spec_u32_le(data.subrange(pos + 4, pos + 8))),
                    pos + 8,
                ),
            )
        } else {
            Err(ReadError::UnexpectedEof)
        }
    }

    fn read_item(&self, file: &mut ByteCursor) -> (res: Result<(u32, u32), ReadError>) {
        let a = read_u32(file)?;
        let b = read_u32(file)?;
        Ok((a, b))
    }
}

/// The size of an outside-parent keyframe record of a model with `ik_count`
/// IK bones and `op_count` outside parents; the initial record has no
/// leading data index.
pub open spec fn op_frame_size(ik_count: nat, op_count: nat, inited: bool) -> nat {
    (if inited { 0nat } else { 4nat }) + 13 + ik_count + 8 * op_count + 1
}

/// An outside-parent keyframe record at `pos` is read past: it takes
/// [`op_frame_size`] bytes.
pub open spec fn spec_read_op_frame(data: Seq<u8>, pos: int, ik_count: nat, op_count: nat, inited: bool) -> Result<((), int), ReadError> {
    if fits(data, pos, op_frame_size(ik_count, op_count, inited) as int) {
        Ok(((), pos + op_frame_size(ik_count, op_count, inited)))
    } else {
        Err(ReadError::UnexpectedEof)
    }
}

/// A record of `size` bytes at `pos` is read past.
pub open spec fn spec_skip(data: Seq<u8>, pos: int, size: nat) -> Result<((), int), ReadError> {
    if fits(data, pos, size as int) {
        Ok(((), pos + size))
    } else {
        Err(ReadError::UnexpectedEof)
    }
}

/// Reads past an outside-parent keyframe record: an optional data index
/// (absent for the initial record), frame, previous and next index, a
/// display flag, one enabled flag per IK bone, a pair of words per outside
/// parent, and a selection flag; a record cut short is reported.
pub fn try_read_op_frame(file: &mut ByteCursor, ik_count: usize, op_count: usize, inited: bool) -> (res: Result<(), ReadError>)
    ensures
        final(file).bytes() == old(file).bytes(),
        read_agrees(
            spec_read_op_frame(old(file).bytes(), old(file).pos(), ik_count as nat, op_count as nat, inited),
            res,
            final(file).pos(),
        ),
{
    let ghost data = file.bytes();
    if !inited {
        let _data_index = read_u32(file)?;
    }
    let _frame = read_u32(file)?;
    let _pre_index = read_u32(file)?;
    let _next_index = read_u32(file)?;
    let _displayed = read_flag(file)?;
    let ghost p1 = file.pos();
    proof {
        lemma_fixed_width_run(FlagItem, data, p1, ik_count as nat, 1);
    }
    let _ik_enabled = try_read_fix_items(file, ik_count, &FlagItem)?;
    let ghost p2 = file.pos();
    proof {
        lemma_fixed_width_run(U32PairItem, data, p2, op_count as nat, 8);
    }
    let _op_data = try_read_fix_items(file, op_count, &U32PairItem)?;
    let _selected = read_flag(file)?;
    Ok(())
}

/// Reads past an outside-parent keyframe record, as [`try_read_op_frame`]
/// does; the record must be complete.
pub fn read_op_frame(file: &mut ByteCursor, ik_count: usize, op_count: usize, inited: bool)
    requires
        spec_read_op_frame(old(file).bytes(), old(file).pos(), ik_count as nat, op_count as nat, inited) is Ok,
    ensures
        final(file).bytes() == old(file).bytes(),
        final(file).pos() == old(file).pos() + op_frame_size(ik_count as nat, op_count as nat, inited),
{
    match try_read_op_frame(file, ik_count, op_count, inited) {
        Ok(()) => {},
        Err(_) => unreached(),
    }
}

/// Reads past the current state of an outside parent (four `u32` words),
/// or reports that the file ends first.
pub fn try_read_op_current_data(file: &mut ByteCursor) -> (res: Result<(), ReadError>)
    ensures
        final(file).bytes() == old(file).bytes(),
        read_agrees(spec_skip(old(file).bytes(), old(file).pos(), 16), res, final(file).pos()),
{
    let _key_frame_begin = read_u32(file)?;
    let _key_frame_end = read_u32(file)?;
    let _model_index = read_u32(file)?;
    let _parent_bone_index = read_u32(file)?;
    Ok(())
}

/// Reads past the current state of an outside parent (16 bytes, which
/// must be there).
pub fn read_op_current_data(file: &mut ByteCursor)
    requires
        fits(old(file).bytes(), old(file).pos(), 16),
    ensures
        final(file).bytes() == old(file).bytes(),
        final(file).pos() == old(file).pos() + 16,
{
    match try_read_op_current_data(file) {
        Ok(()) => {},
        Err(_) => unreached(),
    }
}

/// Reads past the current state of a bone: position, rotation and three
/// flags (31 bytes), or reports that the file ends first.
pub fn try_read_bone_current_data(file: &mut ByteCursor) -> (res: Result<(), ReadError>)
    ensures
        final(file).bytes() == old(file).bytes(),
        read_agrees(spec_skip(old(file).bytes(), old(file).pos(), 31), res, final(file).pos()),
{
    let _trans = try_read_float3(file)?;
    let _rot = try_read_float4(file)?;
    let _edit_uncommitted = read_flag(file)?;
    let _physics_disabled = read_flag(file)?;
    let _row_selected = read_flag(file)?;
    Ok(())
}

/// Reads past the current state of a bone (31 bytes, which must be there).
pub fn read_bone_current_data(file: &mut ByteCursor)
    requires
        fits(old(file).bytes(), old(file).pos(), 31),
    ensures
        final(file).bytes() == old(file).bytes(),
        final(file).pos() == old(file).pos() + 31,
{
    match try_read_bone_current_data(file) {
        Ok(()) => {},
        Err(_) => unreached(),
    }
}

/// Items that are outside-parent keyframe records with a data index.
#[derive(Clone, Copy)]
pub struct OpFrameItem {
    pub ik_count: usize,
    pub op_count: usize,
}

impl ItemReader for OpFrameItem {
    type Item = ();

    open spec fn spec_read(&self, data: Seq<u8>, pos: int) -> Result<((), int), ReadError> {
        spec_read_op_frame(data, pos, self.ik_count as nat, self.op_count as nat, false)
    }

    fn read_item(&self, file: &mut ByteCursor) -> (res: Result<(), ReadError>) {
        try_read_op_frame(file, self.ik_count, self.op_count, false)
    }
}

/// Items that are current bone states.
#[derive(Clone, Copy)]
pub struct BoneCurrentDataItem;

impl ItemReader for BoneCurrentDataItem {
    type Item = ();

    open spec fn spec_read(&self, data: Seq<u8>, pos: int) -> Result<((), int), ReadError> {
        spec_skip(data, pos, 31)
    }

    fn read_item(&self, file: &mut ByteCursor) -> (res: Result<(), ReadError>) {
        try_read_bone_current_data(file)
    }
}

/// Items that are current outside-parent states.
#[derive(Clone, Copy)]
pub struct OpCurrentDataItem;

impl ItemReader for OpCurrentDataItem {
    type Item = ();

    open spec fn spec_read(&self, data: Seq<u8>, pos: int) -> Result<((), int), ReadError> {
        spec_skip(data, pos, 16)
    }

    fn read_item(&self, file: &mut ByteCursor) -> (res: Result<(), ReadError>) {
        try_read_op_current_data(file)
    }
}

/// Items that are length-prefixed strings.
#[derive(Clone, Copy)]
pub struct VStringItem;

impl ItemReader for VStringItem {
    type Item = String;

    open spec fn spec_read(&self, data: Seq<u8>, pos: int) -> Result<(Seq<char>, int), ReadError> {
        spec_read_v_string(data, pos)
    }

    fn read_item(&self, file: &mut ByteCursor) -> (res: Result<String, ReadError>) {
        try_read_v_string(file)
    }
}


// ---------------------------------------------------------------------------
// A model
// ---------------------------------------------------------------------------

/// The start of a model at `pos`: its number (a byte), its name and English
/// name (length-prefixed), its 256-byte file path and a layout byte; the
/// model name and the offset after them.
pub open spec fn spec_read_model_names(data: Seq<u8>, pos: int) -> Result<(Seq<char>, int), ReadError> {
    match spec_read_u8(data, pos) {
        Err(e) => Err(e),
        Ok((_number, p1)) => match spec_read_v_string(data, p1) {
            Err(e) => Err(e),
            Ok((name, p2)) => match spec_read_v_string(data, p2) {
                Err(e) => Err(e),
                Ok((_name_en, p3)) => match spec_read_string(data, p3, 256) {
                    Err(e) => Err(e),
                    Ok((_path, p4)) => match spec_read_u8(data, p4) {
                        Err(e) => Err(e),
                        Ok((_rows, p5)) => Ok((name, p5)),
                    },
                },
            },
        },
    }
}

/// The lists at the head of a model.
pub struct ModelLists {
    pub bone_names: Seq<Seq<char>>,
    pub morph_names: Seq<Seq<char>>,
    pub ik_count: nat,
    pub op_count: nat,
}

/// The four counted lists of a model at `pos`: bone names, morph names,
/// IK bone indexes and outside-parent bone indexes.
pub open spec fn spec_read_model_lists(data: Seq<u8>, pos: int) -> Result<(ModelLists, int), ReadError> {
    match spec_read_items(VStringItem, data, pos) {
        Err(e) => Err(e),
        Ok((bone_names, p1)) => match spec_read_items(VStringItem, data, p1) {
            Err(e) => Err(e),
            Ok((morph_names, p2)) => match spec_read_items(U32Item, data, p2) {
                Err(e) => Err(e),
                Ok((ik, p3)) => match spec_read_items(U32Item, data, p3) {
                    Err(e) => Err(e),
                    Ok((op, p4)) => Ok(
                        (
                            ModelLists {
                                bone_names,
                                morph_names,
                                ik_count: ik.len(),
                                op_count: op.len(),
                            },
                            p4,
                        ),
                    ),
                },
            },
        },
    }
}

/// The panel state of a model at `pos`, which is read past: 22 bytes, a
/// count byte `c`, `c` bytes, then 8 bytes.
pub open spec fn spec_read_model_panel(data: Seq<u8>, pos: int) -> Result<((), int), ReadError> {
    if !fits(data, pos, 23) {
        Err(ReadError::UnexpectedEof)
    } else {
        spec_skip(data, pos, 31 + data[pos + 22] as nat)
    }
}

/// Reads the start of a model and returns the model name.
fn read_model_names(file: &mut ByteCursor) -> (res: Result<String, ReadError>)
    ensures
        final(file).bytes() == old(file).bytes(),
        read_agrees(spec_read_model_names(old(file).bytes(), old(file).pos()), res, final(file).pos()),
{
    let _number = read_u8(file)?;
    let name = try_read_v_string(file)?;
    let _name_en = try_read_v_string(file)?;
    let _path = try_read_string(file, 256)?;
    let _keyframe_editor_top_level_rows = read_u8(file)?;
    Ok(name)
}

/// Reads the four counted lists of a model.
fn read_model_lists(file: &mut ByteCursor) -> (res: Result<(Vec<String>, Vec<String>, usize, usize), ReadError>)
    ensures
        final(file).bytes() == old(file).bytes(),
        match spec_read_model_lists(old(file).bytes(), old(file).pos()) {
            Ok((l, p)) => res matches Ok((b, m, ik, op)) && views(b@) == l.bone_names
                && views(m@) == l.morph_names && ik == l.ik_count && op == l.op_count
                && b@.len() <= u32::MAX && m@.len() <= u32::MAX
                && final(file).pos() == p,
            Err(e) => res matches Err(e2) && e2 == e,
        },
{
    let ghost data = file.bytes();
    let ghost p0 = file.pos();
    let bone_names = try_read_items(file, &VStringItem)?;
    let ghost p1 = file.pos();
    let morph_names = try_read_items(file, &VStringItem)?;
    let ghost p2 = file.pos();
    let ik_indexes = try_read_items(file, &U32Item)?;
    let ghost p3 = file.pos();
    let op_indexes = try_read_items(file, &U32Item)?;
    proof {
        let (n0, q0) = spec_read_u32(data, p0)->Ok_0;
        lemma_fix_items_len(VStringItem, data, q0, n0 as nat);
        let (n1, q1) = spec_read_u32(data, p1)->Ok_0;
        lemma_fix_items_len(VStringItem, data, q1, n1 as nat);
        let (n2, q2) = spec_read_u32(data, p2)->Ok_0;
        lemma_fix_items_len(U32Item, data, q2, n2 as nat);
        let (n3, q3) = spec_read_u32(data, p3)->Ok_0;
        lemma_fix_items_len(U32Item, data, q3, n3 as nat);
    }
    Ok((bone_names, morph_names, ik_indexes.len(), op_indexes.len()))
}

/// Reads past the panel state of a model.
fn read_model_panel(file: &mut ByteCursor) -> (res: Result<(), ReadError>)
    ensures
        final(file).bytes() == old(file).bytes(),
        read_agrees(spec_read_model_panel(old(file).bytes(), old(file).pos()), res, final(file).pos()),
{
    let ghost data = file.bytes();
    let _draw_order = read_u8(file)?;
    let _edit_is_display = read_flag(file)?;
    let _edit_selected_bone = read_u32(file)?;
    let ghost p1 = file.pos();
    proof {
        lemma_fixed_width_run(U32Item, data, p1, 4, 4);
    }
    let _skin_panel = try_read_fix_items(file, 4, &U32Item)?;
    let frame_opened_count = read_u8(file)?;
    let ghost p2 = file.pos();
    proof {
        lemma_fixed_width_run(U8Item, data, p2, frame_opened_count as nat, 1);
    }
    let _frame_opened = try_read_fix_items(file, frame_opened_count as usize, &U8Item)?;
    let _v_scroll = read_u32(file)?;
    let _last_frame = read_u32(file)?;
    Ok(())
}


/// The stored bone keyframes after reading `count` bone keyframe records from `pos`.
pub open spec fn spec_read_bone_frames(
    data: Seq<u8>,
    pos: int,
    frames: Map<u32, SpecLinkedBoneFrame>,
    names_len: nat,
    count: nat,
) -> Result<(Map<u32, SpecLinkedBoneFrame>, int), ReadError>
    decreases count,
{
    if count == 0 {
        Ok((frames, pos))
    } else {
        match spec_read_bone_frame(data, pos, frames, names_len) {
            Err(e) => Err(e),
            Ok((m, p)) => spec_read_bone_frames(data, p, m, names_len, (count - 1) as nat),
        }
    }
}

/// The stored morph keyframes after reading `count` morph keyframe records from `pos`.
pub open spec fn spec_read_morph_frames(
    data: Seq<u8>,
    pos: int,
    frames: Map<u32, LinkedMorphFrame>,
    names_len: nat,
    count: nat,
) -> Result<(Map<u32, LinkedMorphFrame>, int), ReadError>
    decreases count,
{
    if count == 0 {
        Ok((frames, pos))
    } else {
        match spec_read_morph_frame(data, pos, frames, names_len) {
            Err(e) => Err(e),
            Ok((m, p)) => spec_read_morph_frames(data, p, m, names_len, (count - 1) as nat),
        }
    }
}

/// The bone keyframes of a model with `names_len` bones, stored at `pos`:
/// one record per bone, then a `u32` count of further records and those.
pub open spec fn spec_read_bone_section(data: Seq<u8>, pos: int, names_len: nat) -> Result<
    (Map<u32, SpecLinkedBoneFrame>, int),
    ReadError,
> {
    match spec_read_bone_frames(data, pos, Map::empty(), names_len, names_len) {
        Err(e) => Err(e),
        Ok((m, p)) => match spec_read_u32(data, p) {
            Err(e) => Err(e),
            Ok((remaining, q)) => spec_read_bone_frames(data, q, m, names_len, remaining as nat),
        },
    }
}

/// The morph keyframes of a model with `names_len` morphs, laid out as in
/// [`spec_read_bone_section`].
pub open spec fn spec_read_morph_section(data: Seq<u8>, pos: int, names_len: nat) -> Result<
    (Map<u32, LinkedMorphFrame>, int),
    ReadError,
> {
    match spec_read_morph_frames(data, pos, Map::empty(), names_len, names_len) {
        Err(e) => Err(e),
        Ok((m, p)) => match spec_read_u32(data, p) {
            Err(e) => Err(e),
            Ok((remaining, q)) => spec_read_morph_frames(data, q, m, names_len, remaining as nat),
        },
    }
}

/// Reads `count` bone keyframe records into `keyframes`.
fn read_bone_frames(
    file: &mut ByteCursor,
    keyframes: &mut HashMap<u32, LinkedBoneFrame>,
    names: &Vec<String>,
    count: u32,
) -> (res: Result<(), ReadError>)
    ensures
        final(file).bytes() == old(file).bytes(),
        match spec_read_bone_frames(
            old(file).bytes(),
            old(file).pos(),
            bone_frame_views(old(keyframes)@),
            names@.len(),
            count as nat,
        ) {
            Ok((m, p)) => res is Ok && bone_frame_views(final(keyframes)@) == m && final(file).pos() == p,
            Err(e) => res == Err::<(), ReadError>(e),
        },
{
    let ghost data = file.bytes();
    let ghost goal = spec_read_bone_frames(
        data,
        file.pos(),
        bone_frame_views(keyframes@),
        names@.len(),
        count as nat,
    );
    let mut i: u32 = 0;
    while i < count
        invariant
            i <= count,
            file.bytes() == data,
            data == old(file).bytes(),
            goal == spec_read_bone_frames(
                old(file).bytes(),
                old(file).pos(),
                bone_frame_views(old(keyframes)@),
                names@.len(),
                count as nat,
            ),
            goal == spec_read_bone_frames(
                data,
                file.pos(),
                bone_frame_views(keyframes@),
                names@.len(),
                (count - i) as nat,
            ),
        decreases count - i,
    {
        try_read_bone_frame(file, keyframes, names)?;
        i = i + 1;
    }
    Ok(())
}

/// Reads `count` morph keyframe records into `keyframes`.
fn read_morph_frames(
    file: &mut ByteCursor,
    keyframes: &mut HashMap<u32, LinkedMorphFrame>,
    names: &Vec<String>,
    count: u32,
) -> (res: Result<(), ReadError>)
    ensures
        final(file).bytes() == old(file).bytes(),
        match spec_read_morph_frames(old(file).bytes(), old(file).pos(), old(keyframes)@, names@.len(), count as nat) {
            Ok((m, p)) => res is Ok && final(keyframes)@ == m && final(file).pos() == p,
            Err(e) => res == Err::<(), ReadError>(e),
        },
{
    let ghost data = file.bytes();
    let ghost goal = spec_read_morph_frames(data, file.pos(), keyframes@, names@.len(), count as nat);
    let mut i: u32 = 0;
    while i < count
        invariant
            i <= count,
            file.bytes() == data,
            data == old(file).bytes(),
            goal == spec_read_morph_frames(old(file).bytes(), old(file).pos(), old(keyframes)@, names@.len(), count as nat),
            goal == spec_read_morph_frames(data, file.pos(), keyframes@, names@.len(), (count - i) as nat),
        decreases count - i,
    {
        try_read_morph_frame(file, keyframes, names)?;
        i = i + 1;
    }
    Ok(())
}

/// Reads the bone keyframes of a model with the bones `names`.
fn read_bone_section(file: &mut ByteCursor, names: &Vec<String>) -> (res: Result<HashMap<u32, LinkedBoneFrame>, ReadError>)
    requires
        names@.len() <= u32::MAX,
    ensures
        final(file).bytes() == old(file).bytes(),
        match spec_read_bone_section(old(file).bytes(), old(file).pos(), names@.len()) {
            Ok((m, p)) => res matches Ok(k) && bone_frame_views(k@) == m && final(file).pos() == p,
            Err(e) => res matches Err(e2) && e2 == e,
        },
{
    let mut keyframes: HashMap<u32, LinkedBoneFrame> = HashMap::new();
    assert(bone_frame_views(keyframes@) =~= Map::empty());
    read_bone_frames(file, &mut keyframes, names, names.len() as u32)?;
    let remaining = read_u32(file)?;
    read_bone_frames(file, &mut keyframes, names, remaining)?;
    Ok(keyframes)
}

/// Reads the morph keyframes of a model with the morphs `names`.
fn read_morph_section(file: &mut ByteCursor, names: &Vec<String>) -> (res: Result<HashMap<u32, LinkedMorphFrame>, ReadError>)
    requires
        names@.len() <= u32::MAX,
    ensures
        final(file).bytes() == old(file).bytes(),
        match spec_read_morph_section(old(file).bytes(), old(file).pos(), names@.len()) {
            Ok((m, p)) => res matches Ok(k) && k@ == m && final(file).pos() == p,
            Err(e) => res matches Err(e2) && e2 == e,
        },
{
    let mut keyframes: HashMap<u32, LinkedMorphFrame> = HashMap::new();
    read_morph_frames(file, &mut keyframes, names, names.len() as u32)?;
    let remaining = read_u32(file)?;
    read_morph_frames(file, &mut keyframes, names, remaining)?;
    Ok(keyframes)
}


/// The rest of a model at `pos`, which is read past: the initial
/// outside-parent record, a counted run of further ones, the current state
/// of every bone, morph, IK bone and outside parent, and 7 bytes of
/// settings.
pub open spec fn spec_read_model_tail(
    data: Seq<u8>,
    pos: int,
    bone_count: nat,
    morph_count: nat,
    ik_count: nat,
    op_count: nat,
) -> Result<((), int), ReadError> {
    let init = op_frame_size(ik_count, op_count, true);
    if !fits(data, pos, init as int) {
        Err(ReadError::UnexpectedEof)
    } else {
        match spec_read_u32(data, pos + init) {
            Err(e) => Err(e),
            Ok((n, p)) => spec_skip(
                data,
                p,
                n as nat * op_frame_size(ik_count, op_count, false) + bone_count * 31 + morph_count * 4
                    + ik_count * 1 + op_count * 16 + 7,
            ),
        }
    }
}

/// Reads past the rest of a model.
fn read_model_tail(
    file: &mut ByteCursor,
    bone_count: usize,
    morph_count: usize,
    ik_count: usize,
    op_count: usize,
) -> (res: Result<(), ReadError>)
    ensures
        final(file).bytes() == old(file).bytes(),
        read_agrees(
            spec_read_model_tail(
                old(file).bytes(),
                old(file).pos(),
                bone_count as nat,
                morph_count as nat,
                ik_count as nat,
                op_count as nat,
            ),
            res,
            final(file).pos(),
        ),
{
    let ghost data = file.bytes();
    let op_item = OpFrameItem { ik_count, op_count };
    let _op_init_frame = try_read_op_frame(file, ik_count, op_count, true)?;
    let ghost p1 = file.pos();
    proof {
        if let Ok((n, q)) = spec_read_u32(data, p1) {
            lemma_fixed_width_run(op_item, data, q, n as nat, op_frame_size(ik_count as nat, op_count as nat, false));
        }
    }
    let _op_key_frames = try_read_items(file, &op_item)?;
    let ghost p2 = file.pos();
    proof {
        lemma_fixed_width_run(BoneCurrentDataItem, data, p2, bone_count as nat, 31);
    }
    let _bone_current_data = try_read_fix_items(file, bone_count, &BoneCurrentDataItem)?;
    let ghost p3 = file.pos();
    proof {
        lemma_fixed_width_run(U32Item, data, p3, morph_count as nat, 4);
    }
    let _morph_current_datas = try_read_fix_items(file, morph_count, &U32Item)?;
    let ghost p4 = file.pos();
    proof {
        lemma_fixed_width_run(FlagItem, data, p4, ik_count as nat, 1);
    }
    let _is_current_ik_enabled_data = try_read_fix_items(file, ik_count, &FlagItem)?;
    let ghost p5 = file.pos();
    proof {
        lemma_fixed_width_run(OpCurrentDataItem, data, p5, op_count as nat, 16);
    }
    let _op_current_data = try_read_fix_items(file, op_count, &OpCurrentDataItem)?;
    let _blend_added = read_flag(file)?;
    let _edge_width = read_u32(file)?;
    let _self_shadow_enabled = read_flag(file)?;
    let _calc_order = read_u8(file)?;
    Ok(())
}


// ---------------------------------------------------------------------------
// Keyframe chains
// ---------------------------------------------------------------------------

/// The bone keyframe records of the chain that starts at data index `index`,
/// following next indexes until one is 0, allowing `fuel` more steps; a
/// chain that reaches an index with no record fails, and one that needs more
/// steps than there are records never ends.
pub open spec fn spec_bone_chain(frames: Map<u32, SpecLinkedBoneFrame>, index: u32, fuel: nat) -> Result<
    Seq<SpecLinkedBoneFrame>,
    ReadError,
>
    decreases fuel,
{
    if !frames.contains_key(index) {
        Err(ReadError::MissingKeyframe)
    } else if frames[index].next == 0 {
        Ok(seq![frames[index]])
    } else if fuel == 0 {
        Err(ReadError::CyclicKeyframes)
    } else {
        match spec_bone_chain(frames, frames[index].next, (fuel - 1) as nat) {
            Err(e) => Err(e),
            Ok(rest) => Ok(seq![frames[index]] + rest),
        }
    }
}

/// The morph keyframe records of a chain, as in [`spec_bone_chain`].
pub open spec fn spec_morph_chain(frames: Map<u32, LinkedMorphFrame>, index: u32, fuel: nat) -> Result<
    Seq<LinkedMorphFrame>,
    ReadError,
>
    decreases fuel,
{
    if !frames.contains_key(index) {
        Err(ReadError::MissingKeyframe)
    } else if frames[index].next == 0 {
        Ok(seq![frames[index]])
    } else if fuel == 0 {
        Err(ReadError::CyclicKeyframes)
    } else {
        match spec_morph_chain(frames, frames[index].next, (fuel - 1) as nat) {
            Err(e) => Err(e),
            Ok(rest) => Ok(seq![frames[index]] + rest),
        }
    }
}

/// The keyframe of bone `name` that a stored record describes.
pub open spec fn named_bone_keyframe(name: Seq<char>, f: SpecLinkedBoneFrame) -> SpecBoneKeyframe {
    SpecBoneKeyframe {
        name,
        frame: f.frame,
        trans: f.trans,
        rot: f.rot,
        txc: f.txc,
        tyc: f.tyc,
        tzc: f.tzc,
        rc: f.rc,
    }
}

/// The keyframe of morph `name` that a stored record describes.
pub open spec fn named_morph_keyframe(name: Seq<char>, f: LinkedMorphFrame) -> SpecMorphKeyframe {
    SpecMorphKeyframe { name, frame: f.frame, weight: f.weight }
}

/// The bone keyframes of a model: for each bone `i` in order, the chain that
/// starts at data index `i`, named after the bone.
pub open spec fn spec_bone_keyframes(frames: Map<u32, SpecLinkedBoneFrame>, names: Seq<Seq<char>>) -> Result<
    Seq<SpecBoneKeyframe>,
    ReadError,
>
    decreases names.len(),
{
    if names.len() == 0 {
        Ok(Seq::empty())
    } else {
        match spec_bone_keyframes(frames, names.drop_last()) {
            Err(e) => Err(e),
            Ok(prev) => match spec_bone_chain(frames, (names.len() - 1) as u32, frames.len()) {
                Err(e) => Err(e),
                Ok(chain) => Ok(prev + chain.map_values(|f: SpecLinkedBoneFrame| named_bone_keyframe(names.last(), f))),
            },
        }
    }
}

/// The morph keyframes of a model, as in [`spec_bone_keyframes`].
pub open spec fn spec_morph_keyframes(frames: Map<u32, LinkedMorphFrame>, names: Seq<Seq<char>>) -> Result<
    Seq<SpecMorphKeyframe>,
    ReadError,
>
    decreases names.len(),
{
    if names.len() == 0 {
        Ok(Seq::empty())
    } else {
        match spec_morph_keyframes(frames, names.drop_last()) {
            Err(e) => Err(e),
            Ok(prev) => match spec_morph_chain(frames, (names.len() - 1) as u32, frames.len()) {
                Err(e) => Err(e),
                Ok(chain) => Ok(prev + chain.map_values(|f: LinkedMorphFrame| named_morph_keyframe(names.last(), f))),
            },
        }
    }
}

proof fn lemma_bone_keyframes_err(frames: Map<u32, SpecLinkedBoneFrame>, names: Seq<Seq<char>>, k: int)
    requires
        0 <= k <= names.len(),
        spec_bone_keyframes(frames, names.take(k)) is Err,
    ensures
        spec_bone_keyframes(frames, names) == spec_bone_keyframes(frames, names.take(k)),
    decreases names.len(),
{
    if k == names.len() {
        assert(names.take(k) =~= names);
    } else {
        assert(names.drop_last().take(k) =~= names.take(k));
        lemma_bone_keyframes_err(frames, names.drop_last(), k);
    }
}

proof fn lemma_morph_keyframes_err(frames: Map<u32, LinkedMorphFrame>, names: Seq<Seq<char>>, k: int)
    requires
        0 <= k <= names.len(),
        spec_morph_keyframes(frames, names.take(k)) is Err,
    ensures
        spec_morph_keyframes(frames, names) == spec_morph_keyframes(frames, names.take(k)),
    decreases names.len(),
{
    if k == names.len() {
        assert(names.take(k) =~= names);
    } else {
        assert(names.drop_last().take(k) =~= names.take(k));
        lemma_morph_keyframes_err(frames, names.drop_last(), k);
    }
}

/// `acc` followed by the records of `rest`.
pub open spec fn prepend_chain<V>(acc: Seq<V>, rest: Result<Seq<V>, ReadError>) -> Result<Seq<V>, ReadError> {
    match rest {
        Ok(vs) => Ok(acc + vs),
        Err(e) => Err(e),
    }
}

/// Collects the bone keyframes of a model from its stored records.
fn collect_bone_keyframes(frames: &HashMap<u32, LinkedBoneFrame>, names: &Vec<String>) -> (res: Result<
    Vec<BoneKeyframe>,
    ReadError,
>)
    requires
        names@.len() <= u32::MAX,
    ensures
        match spec_bone_keyframes(bone_frame_views(frames@), views(names@)) {
            Ok(ks) => res matches Ok(v) && views(v@) == ks,
            Err(e) => res matches Err(e2) && e2 == e,
        },
{
    let ghost fv = bone_frame_views(frames@);
    let ghost nv = views(names@);
    assert(fv.dom() =~= frames@.dom());
    let mut out: Vec<BoneKeyframe> = Vec::new();
    let mut i: usize = 0;
    assert(nv.take(0) =~= Seq::<Seq<char>>::empty());
    assert(views(out@) =~= Seq::<SpecBoneKeyframe>::empty());
    while i < names.len()
        invariant
            i <= names@.len() <= u32::MAX,
            fv == bone_frame_views(frames@),
            fv.dom() == frames@.dom(),
            nv == views(names@),
            spec_bone_keyframes(fv, nv.take(i as int)) == Ok::<Seq<SpecBoneKeyframe>, ReadError>(views(out@)),
        decreases names@.len() - i,
    {
        let name = &names[i];
        let ghost prev = views(out@);
        let ghost chain_goal = spec_bone_chain(fv, i as u32, fv.len());
        let ghost mut recs: Seq<SpecLinkedBoneFrame> = Seq::empty();
        let mut index: u32 = i as u32;
        let mut fuel: usize = frames.len();
        assert(nv.take(i + 1).drop_last() =~= nv.take(i as int));
        assert(nv.take(i + 1).last() == name@);
        proof {
            assert(recs + Seq::<SpecLinkedBoneFrame>::empty() =~= recs);
            if spec_bone_chain(fv, index, fuel as nat) is Ok {
                assert(recs + spec_bone_chain(fv, index, fuel as nat)->Ok_0 =~= spec_bone_chain(fv, index, fuel as nat)->Ok_0);
            }
        }
        loop
            invariant_except_break
                chain_goal == prepend_chain(recs, spec_bone_chain(fv, index, fuel as nat)),
                views(out@) == prev + recs.map_values(|f: SpecLinkedBoneFrame| named_bone_keyframe(name@, f)),
            invariant
                i < names@.len(),
                nv == views(names@),
                name@ == nv[i as int],
                fv == bone_frame_views(frames@),
                fv.dom() == frames@.dom(),
                spec_bone_keyframes(fv, nv.take(i as int)) == Ok::<Seq<SpecBoneKeyframe>, ReadError>(prev),
                nv.take(i + 1).drop_last() == nv.take(i as int),
                nv.take(i + 1).last() == name@,
                chain_goal == spec_bone_chain(fv, i as u32, fv.len()),
            ensures
                chain_goal == Ok::<Seq<SpecLinkedBoneFrame>, ReadError>(recs),
                views(out@) == prev + recs.map_values(|f: SpecLinkedBoneFrame| named_bone_keyframe(name@, f)),
            decreases fuel,
        {
            let kf = match frames.get(&index) {
                Some(k) => *k,
                None => {
                    proof {
                        lemma_bone_keyframes_err(fv, nv, i + 1);
                    }
                    return Err(ReadError::MissingKeyframe);
                },
            };
            let ghost old_out = views(out@);
            out.push(
                BoneKeyframe {
                    name: name.clone(),
                    frame: kf.frame,
                    trans: kf.trans,
                    rot: kf.rot,
                    txc: kf.txc,
                    tyc: kf.tyc,
                    tzc: kf.tzc,
                    rc: kf.rc,
                },
            );
            let ghost old_recs = recs;
            proof {
                recs = recs.push(kf@);
                assert(fv[index] == kf@);
                assert(views(out@) =~= old_out.push(named_bone_keyframe(name@, kf@)));
                assert(recs.map_values(|f: SpecLinkedBoneFrame| named_bone_keyframe(name@, f)) =~= old_recs.map_values(
                    |f: SpecLinkedBoneFrame| named_bone_keyframe(name@, f),
                ).push(named_bone_keyframe(name@, kf@)));
            }
            if kf.next != 0 {
                if fuel == 0 {
                    proof {
                        lemma_bone_keyframes_err(fv, nv, i + 1);
                    }
                    return Err(ReadError::CyclicKeyframes);
                }
                proof {
                    if let Ok(rest) = spec_bone_chain(fv, kf.next, (fuel - 1) as nat) {
                        assert(old_recs + (seq![kf@] + rest) =~= recs + rest);
                    }
                }
                fuel = fuel - 1;
                index = kf.next;
            } else {
                assert(old_recs + seq![kf@] =~= recs);
                break;
            }
        }
        proof {
            assert(views(out@) =~= prev + recs.map_values(|f: SpecLinkedBoneFrame| named_bone_keyframe(nv.take(i + 1).last(), f)));
        }
        i = i + 1;
    }
    assert(nv.take(names@.len() as int) =~= nv);
    Ok(out)
}

/// Collects the morph keyframes of a model from its stored records.
fn collect_morph_keyframes(frames: &HashMap<u32, LinkedMorphFrame>, names: &Vec<String>) -> (res: Result<
    Vec<MorphKeyframe>,
    ReadError,
>)
    requires
        names@.len() <= u32::MAX,
    ensures
        match spec_morph_keyframes(frames@, views(names@)) {
            Ok(ks) => res matches Ok(v) && views(v@) == ks,
            Err(e) => res matches Err(e2) && e2 == e,
        },
{
    let ghost fv = frames@;
    let ghost nv = views(names@);
    assert(fv.dom() =~= frames@.dom());
    let mut out: Vec<MorphKeyframe> = Vec::new();
    let mut i: usize = 0;
    assert(nv.take(0) =~= Seq::<Seq<char>>::empty());
    assert(views(out@) =~= Seq::<SpecMorphKeyframe>::empty());
    while i < names.len()
        invariant
            i <= names@.len() <= u32::MAX,
            fv == frames@,
            fv.dom() == frames@.dom(),
            nv == views(names@),
            spec_morph_keyframes(fv, nv.take(i as int)) == Ok::<Seq<SpecMorphKeyframe>, ReadError>(views(out@)),
        decreases names@.len() - i,
    {
        let name = &names[i];
        let ghost prev = views(out@);
        let ghost chain_goal = spec_morph_chain(fv, i as u32, fv.len());
        let ghost mut recs: Seq<LinkedMorphFrame> = Seq::empty();
        let mut index: u32 = i as u32;
        let mut fuel: usize = frames.len();
        assert(nv.take(i + 1).drop_last() =~= nv.take(i as int));
        assert(nv.take(i + 1).last() == name@);
        proof {
            assert(recs + Seq::<LinkedMorphFrame>::empty() =~= recs);
            if spec_morph_chain(fv, index, fuel as nat) is Ok {
                assert(recs + spec_morph_chain(fv, index, fuel as nat)->Ok_0 =~= spec_morph_chain(fv, index, fuel as nat)->Ok_0);
            }
        }
        loop
            invariant_except_break
                chain_goal == prepend_chain(recs, spec_morph_chain(fv, index, fuel as nat)),
                views(out@) == prev + recs.map_values(|f: LinkedMorphFrame| named_morph_keyframe(name@, f)),
            invariant
                i < names@.len(),
                nv == views(names@),
                name@ == nv[i as int],
                fv == frames@,
                fv.dom() == frames@.dom(),
                spec_morph_keyframes(fv, nv.take(i as int)) == Ok::<Seq<SpecMorphKeyframe>, ReadError>(prev),
                nv.take(i + 1).drop_last() == nv.take(i as int),
                nv.take(i + 1).last() == name@,
                chain_goal == spec_morph_chain(fv, i as u32, fv.len()),
            ensures
                chain_goal == Ok::<Seq<LinkedMorphFrame>, ReadError>(recs),
                views(out@) == prev + recs.map_values(|f: LinkedMorphFrame| named_morph_keyframe(name@, f)),
            decreases fuel,
        {
            let kf = match frames.get(&index) {
                Some(k) => *k,
                None => {
                    proof {
                        lemma_morph_keyframes_err(fv, nv, i + 1);
                    }
                    return Err(ReadError::MissingKeyframe);
                },
            };
            let ghost old_out = views(out@);
            out.push(
                MorphKeyframe { name: name.clone(), frame: kf.frame, weight: kf.weight },
            );
            let ghost old_recs = recs;
            proof {
                recs = recs.push(kf@);
                assert(fv[index] == kf@);
                assert(views(out@) =~= old_out.push(named_morph_keyframe(name@, kf@)));
                assert(recs.map_values(|f: LinkedMorphFrame| named_morph_keyframe(name@, f)) =~= old_recs.map_values(
                    |f: LinkedMorphFrame| named_morph_keyframe(name@, f),
                ).push(named_morph_keyframe(name@, kf@)));
            }
            if kf.next != 0 {
                if fuel == 0 {
                    proof {
                        lemma_morph_keyframes_err(fv, nv, i + 1);
                    }
                    return Err(ReadError::CyclicKeyframes);
                }
                proof {
                    if let Ok(rest) = spec_morph_chain(fv, kf.next, (fuel - 1) as nat) {
                        assert(old_recs + (seq![kf@] + rest) =~= recs + rest);
                    }
                }
                fuel = fuel - 1;
                index = kf.next;
            } else {
                assert(old_recs + seq![kf@] =~= recs);
                break;
            }
        }
        proof {
            assert(views(out@) =~= prev + recs.map_values(|f: LinkedMorphFrame| named_morph_keyframe(nv.take(i + 1).last(), f)));
        }
        i = i + 1;
    }
    assert(nv.take(names@.len() as int) =~= nv);
    Ok(out)
}


// ---------------------------------------------------------------------------
// Models and project files
// ---------------------------------------------------------------------------

/// The motion of the model stored at `pos`, and the offset after it: the
/// model name, and every bone and morph keyframe chain in bone and morph
/// order, each keyframe named after its bone or morph; no camera, light or
/// shadow keyframes.
pub open spec fn spec_read_model(data: Seq<u8>, pos: int) -> Result<(SpecMotion, int), ReadError> {
    match spec_read_model_names(data, pos) {
        Err(e) => Err(e),
        Ok((name, p1)) => match spec_read_model_lists(data, p1) {
            Err(e) => Err(e),
            Ok((l, p2)) => match spec_read_model_panel(data, p2) {
                Err(e) => Err(e),
                Ok((_, p3)) => match spec_read_bone_section(data, p3, l.bone_names.len()) {
                    Err(e) => Err(e),
                    Ok((bones, p4)) => match spec_read_morph_section(data, p4, l.morph_names.len()) {
                        Err(e) => Err(e),
                        Ok((morphs, p5)) => match spec_read_model_tail(
                            data,
                            p5,
                            l.bone_names.len(),
                            l.morph_names.len(),
                            l.ik_count,
                            l.op_count,
                        ) {
                            Err(e) => Err(e),
                            Ok((_, p6)) => match spec_bone_keyframes(bones, l.bone_names) {
                                Err(e) => Err(e),
                                Ok(bone_keyframes) => match spec_morph_keyframes(morphs, l.morph_names) {
                                    Err(e) => Err(e),
                                    Ok(morph_keyframes) => Ok(
                                        (
                                            SpecMotion {
                                                model_name: name,
                                                bone_keyframes,
                                                morph_keyframes,
                                                camera_keyframes: Seq::empty(),
                                                light_keyframes: Seq::empty(),
                                                shadow_keyframes: Seq::empty(),
                                            },
                                            p6,
                                        ),
                                    ),
                                },
                            },
                        },
                    },
                },
            },
        },
    }
}

/// Reads one model of a project file as a motion, or reports a block that
/// ends early or a keyframe chain that reaches a missing record or never
/// ends.
pub fn try_read_model(file: &mut ByteCursor) -> (res: Result<Motion, ReadError>)
    ensures
        final(file).bytes() == old(file).bytes(),
        read_agrees(spec_read_model(old(file).bytes(), old(file).pos()), res, final(file).pos()),
{
    let name = read_model_names(file)?;
    let (bone_names, morph_names, ik_count, op_count) = read_model_lists(file)?;
    read_model_panel(file)?;
    let bone_key_frames = read_bone_section(file, &bone_names)?;
    let morph_key_frames = read_morph_section(file, &morph_names)?;
    read_model_tail(file, bone_names.len(), morph_names.len(), ik_count, op_count)?;
    let bone_frame_list = collect_bone_keyframes(&bone_key_frames, &bone_names)?;
    let morph_frame_list = collect_morph_keyframes(&morph_key_frames, &morph_names)?;
    let m = Motion {
        model_name: name,
        bone_keyframes: bone_frame_list,
        morph_keyframes: morph_frame_list,
        camera_keyframes: Vec::new(),
        light_keyframes: Vec::new(),
        shadow_keyframes: Vec::new(),
    };
    assert(m@.camera_keyframes =~= Seq::<crate::motion::CameraKeyframe>::empty());
    assert(m@.light_keyframes =~= Seq::<crate::motion::LightKeyframe>::empty());
    assert(m@.shadow_keyframes =~= Seq::<crate::motion::ShadowKeyframe>::empty());
    Ok(m)
}

/// Reads one model of a project file as a motion; the model block must be
/// complete and every keyframe chain must end at a stored record.
pub fn read_model(file: &mut ByteCursor) -> (m: Motion)
    requires
        spec_read_model(old(file).bytes(), old(file).pos()) is Ok,
    ensures
        final(file).bytes() == old(file).bytes(),
        spec_read_model(old(file).bytes(), old(file).pos())->Ok_0 == (m@, final(file).pos()),
{
    match try_read_model(file) {
        Ok(m) => m,
        Err(_) => unreached(),
    }
}

/// Items that are models.
#[derive(Clone, Copy)]
pub struct ModelItem;

impl ItemReader for ModelItem {
    type Item = Motion;

    open spec fn spec_read(&self, data: Seq<u8>, pos: int) -> Result<(SpecMotion, int), ReadError> {
        spec_read_model(data, pos)
    }

    fn read_item(&self, file: &mut ByteCursor) -> (res: Result<Motion, ReadError>) {
        try_read_model(file)
    }
}

/// The motions of a project file: after its header, a count byte and that
/// many models (anything after them is ignored).
pub open spec fn spec_read_pmm(data: Seq<u8>) -> Result<Seq<SpecMotion>, ReadError> {
    match spec_read_header(data, 0) {
        Err(e) => Err(e),
        Ok((_, p1)) => match spec_read_u8(data, p1) {
            Err(e) => Err(e),
            Ok((count, p2)) => match spec_read_fix_items(ModelItem, data, p2, count as nat) {
                Err(e) => Err(e),
                Ok((motions, _)) => Ok(motions),
            },
        },
    }
}

/// Reads the motion of every model of a project file, or reports the first
/// error met.
pub fn try_read_pmm(content: Vec<u8>) -> (res: Result<Vec<Motion>, ReadError>)
    ensures
        match spec_read_pmm(content@) {
            Ok(ms) => res matches Ok(v) && views(v@) == ms,
            Err(e) => res matches Err(e2) && e2 == e,
        },
{
    let mut file = ByteCursor::new(content);
    try_read_header(&mut file)?;
    let count = read_u8(&mut file)?;
    try_read_fix_items(&mut file, count as usize, &ModelItem)
}

/// Reads the motion of every model of a project file, which must be
/// complete and well formed.
pub fn read_pmm(content: Vec<u8>) -> (v: Vec<Motion>)
    requires
        spec_read_pmm(content@) is Ok,
    ensures
        views(v@) == spec_read_pmm(content@)->Ok_0,
{
    match try_read_pmm(content) {
        Ok(v) => v,
        Err(_) => unreached(),
    }
}


// ---------------------------------------------------------------------------
// Laws
// ---------------------------------------------------------------------------

/// The data index reached from `index` after `n` steps along next indexes;
/// `None` once a step would leave a record that is missing or ends the chain.
pub open spec fn bone_walk(frames: Map<u32, SpecLinkedBoneFrame>, index: u32, n: nat) -> Option<u32>
    decreases n,
{
    if n == 0 {
        Some(index)
    } else {
        match bone_walk(frames, index, (n - 1) as nat) {
            Some(j) => if frames.contains_key(j) && frames[j].next != 0 {
                Some(frames[j].next)
            } else {
                None
            },
            None => None,
        }
    }
}

/// The walk is at a stored record that continues the chain.
pub open spec fn bone_continues(frames: Map<u32, SpecLinkedBoneFrame>, w: Option<u32>) -> bool {
    w matches Some(j) && frames.contains_key(j) && frames[j].next != 0
}

/// Following next indexes from `index` never ends: every record reached is
/// stored and continues the chain.
pub open spec fn bone_chain_endless(frames: Map<u32, SpecLinkedBoneFrame>, index: u32) -> bool {
    forall|n: nat| bone_continues(frames, #[trigger] bone_walk(frames, index, n))
}

proof fn lemma_bone_walk_shift(frames: Map<u32, SpecLinkedBoneFrame>, i: u32, k: nat)
    requires
        bone_continues(frames, Some(i)),
    ensures
        bone_walk(frames, i, k + 1) == bone_walk(frames, frames[i].next, k),
    decreases k,
{
    if k > 0 {
        lemma_bone_walk_shift(frames, i, (k - 1) as nat);
        assert(bone_walk(frames, i, k) == bone_walk(frames, frames[i].next, (k - 1) as nat));
    } else {
        assert(bone_walk(frames, i, 0) == Some(i));
        assert(bone_walk(frames, frames[i].next, 0) == Some(frames[i].next));
    }
}

proof fn lemma_bone_cyclic_walk(frames: Map<u32, SpecLinkedBoneFrame>, i: u32, fuel: nat, k: nat)
    requires
        spec_bone_chain(frames, i, fuel) == Err::<Seq<SpecLinkedBoneFrame>, ReadError>(ReadError::CyclicKeyframes),
        k <= fuel,
    ensures
        bone_continues(frames, bone_walk(frames, i, k)),
    decreases fuel,
{
    if k > 0 {
        let nx = frames[i].next;
        lemma_bone_walk_shift(frames, i, (k - 1) as nat);
        lemma_bone_cyclic_walk(frames, nx, (fuel - 1) as nat, (k - 1) as nat);
    }
}

proof fn lemma_bone_endless_cyclic(frames: Map<u32, SpecLinkedBoneFrame>, i: u32, fuel: nat)
    requires
        bone_chain_endless(frames, i),
    ensures
        spec_bone_chain(frames, i, fuel) == Err::<Seq<SpecLinkedBoneFrame>, ReadError>(ReadError::CyclicKeyframes),
    decreases fuel,
{
    assert(bone_continues(frames, bone_walk(frames, i, 0)));
    if fuel > 0 {
        let nx = frames[i].next;
        assert forall|n: nat| bone_continues(frames, #[trigger] bone_walk(frames, nx, n)) by {
            lemma_bone_walk_shift(frames, i, n);
            assert(bone_continues(frames, bone_walk(frames, i, n + 1)));
        }
        lemma_bone_endless_cyclic(frames, nx, (fuel - 1) as nat);
    }
}

proof fn lemma_bone_walk_period(frames: Map<u32, SpecLinkedBoneFrame>, i: u32, a: nat, b: nat, t: nat)
    requires
        bone_walk(frames, i, a) == bone_walk(frames, i, b),
    ensures
        bone_walk(frames, i, a + t) == bone_walk(frames, i, b + t),
    decreases t,
{
    if t > 0 {
        lemma_bone_walk_period(frames, i, a, b, (t - 1) as nat);
        assert(bone_walk(frames, i, a + t) == bone_walk(frames, i, (a + (t - 1)) as nat + 1));
    }
}

proof fn lemma_bone_periodic_endless(frames: Map<u32, SpecLinkedBoneFrame>, i: u32, a: nat, b: nat, bound: nat, n: nat)
    requires
        a < b <= bound,
        bone_walk(frames, i, a) == bone_walk(frames, i, b),
        forall|k: nat| k <= bound ==> bone_continues(frames, #[trigger] bone_walk(frames, i, k)),
    ensures
        bone_continues(frames, bone_walk(frames, i, n)),
    decreases n,
{
    if n > bound {
        let t = (n - b) as nat;
        lemma_bone_walk_period(frames, i, a, b, t);
        assert(b + t == n);
        lemma_bone_periodic_endless(frames, i, a, b, bound, a + t);
    }
}

/// A keyframe chain is refused as cyclic exactly when following its next
/// indexes from the start never ends (so reading it keyframe by keyframe
/// would never finish).
pub proof fn law_bone_chain_cyclic_iff_endless(frames: Map<u32, SpecLinkedBoneFrame>, index: u32)
    requires
        frames.dom().finite(),
    ensures
        spec_bone_chain(frames, index, frames.len()) == Err::<Seq<SpecLinkedBoneFrame>, ReadError>(ReadError::CyclicKeyframes)
            <==> bone_chain_endless(frames, index),
{
    let len = frames.len();
    if bone_chain_endless(frames, index) {
        lemma_bone_endless_cyclic(frames, index, len);
    }
    if spec_bone_chain(frames, index, len) == Err::<Seq<SpecLinkedBoneFrame>, ReadError>(ReadError::CyclicKeyframes) {
        assert forall|k: nat| k <= len implies bone_continues(frames, #[trigger] bone_walk(frames, index, k)) by {
            lemma_bone_cyclic_walk(frames, index, len, k);
        }
        let w = Seq::new(len + 1, |k: int| bone_walk(frames, index, k as nat)->0);
        assert(w.to_set().subset_of(frames.dom())) by {
            assert forall|j: u32| w.to_set().contains(j) implies frames.dom().contains(j) by {
                let k = choose|k: int| 0 <= k < w.len() && w[k] == j;
                assert(bone_continues(frames, bone_walk(frames, index, k as nat)));
            }
        }
        vstd::set_lib::lemma_len_subset(w.to_set(), frames.dom());
        if w.no_duplicates() {
            w.unique_seq_to_set();
            assert(false);
        }
        let (a, b) = choose|a: int, b: int| 0 <= a < w.len() && 0 <= b < w.len() && a != b && w[a] == w[b];
        let (lo, hi) = if a < b { (a as nat, b as nat) } else { (b as nat, a as nat) };
        assert(bone_continues(frames, bone_walk(frames, index, lo)));
        assert(bone_continues(frames, bone_walk(frames, index, hi)));
        assert(bone_walk(frames, index, lo) == bone_walk(frames, index, hi));
        assert forall|n: nat| bone_continues(frames, #[trigger] bone_walk(frames, index, n)) by {
            lemma_bone_periodic_endless(frames, index, lo, hi, len, n);
        }
    }
}

/// The data index reached from `index` after `n` steps along next indexes;
/// `None` once a step would leave a record that is missing or ends the chain.
pub open spec fn morph_walk(frames: Map<u32, LinkedMorphFrame>, index: u32, n: nat) -> Option<u32>
    decreases n,
{
    if n == 0 {
        Some(index)
    } else {
        match morph_walk(frames, index, (n - 1) as nat) {
            Some(j) => if frames.contains_key(j) && frames[j].next != 0 {
                Some(frames[j].next)
            } else {
                None
            },
            None => None,
        }
    }
}

/// The walk is at a stored record that continues the chain.
pub open spec fn morph_continues(frames: Map<u32, LinkedMorphFrame>, w: Option<u32>) -> bool {
    w matches Some(j) && frames.contains_key(j) && frames[j].next != 0
}

/// Following next indexes from `index` never ends: every record reached is
/// stored and continues the chain.
pub open spec fn morph_chain_endless(frames: Map<u32, LinkedMorphFrame>, index: u32) -> bool {
    forall|n: nat| morph_continues(frames, #[trigger] morph_walk(frames, index, n))
}

proof fn lemma_morph_walk_shift(frames: Map<u32, LinkedMorphFrame>, i: u32, k: nat)
    requires
        morph_continues(frames, Some(i)),
    ensures
        morph_walk(frames, i, k + 1) == morph_walk(frames, frames[i].next, k),
    decreases k,
{
    if k > 0 {
        lemma_morph_walk_shift(frames, i, (k - 1) as nat);
        assert(morph_walk(frames, i, k) == morph_walk(frames, frames[i].next, (k - 1) as nat));
    } else {
        assert(morph_walk(frames, i, 0) == Some(i));
        assert(morph_walk(frames, frames[i].next, 0) == Some(frames[i].next));
    }
}

proof fn lemma_morph_cyclic_walk(frames: Map<u32, LinkedMorphFrame>, i: u32, fuel: nat, k: nat)
    requires
        spec_morph_chain(frames, i, fuel) == Err::<Seq<LinkedMorphFrame>, ReadError>(ReadError::CyclicKeyframes),
        k <= fuel,
    ensures
        morph_continues(frames, morph_walk(frames, i, k)),
    decreases fuel,
{
    if k > 0 {
        let nx = frames[i].next;
        lemma_morph_walk_shift(frames, i, (k - 1) as nat);
        lemma_morph_cyclic_walk(frames, nx, (fuel - 1) as nat, (k - 1) as nat);
    }
}

proof fn lemma_morph_endless_cyclic(frames: Map<u32, LinkedMorphFrame>, i: u32, fuel: nat)
    requires
        morph_chain_endless(frames, i),
    ensures
        spec_morph_chain(frames, i, fuel) == Err::<Seq<LinkedMorphFrame>, ReadError>(ReadError::CyclicKeyframes),
    decreases fuel,
{
    assert(morph_continues(frames, morph_walk(frames, i, 0)));
    if fuel > 0 {
        let nx = frames[i].next;
        assert forall|n: nat| morph_continues(frames, #[trigger] morph_walk(frames, nx, n)) by {
            lemma_morph_walk_shift(frames, i, n);
            assert(morph_continues(frames, morph_walk(frames, i, n + 1)));
        }
        lemma_morph_endless_cyclic(frames, nx, (fuel - 1) as nat);
    }
}

proof fn lemma_morph_walk_period(frames: Map<u32, LinkedMorphFrame>, i: u32, a: nat, b: nat, t: nat)
    requires
        morph_walk(frames, i, a) == morph_walk(frames, i, b),
    ensures
        morph_walk(frames, i, a + t) == morph_walk(frames, i, b + t),
    decreases t,
{
    if t > 0 {
        lemma_morph_walk_period(frames, i, a, b, (t - 1) as nat);
        assert(morph_walk(frames, i, a + t) == morph_walk(frames, i, (a + (t - 1)) as nat + 1));
    }
}

proof fn lemma_morph_periodic_endless(frames: Map<u32, LinkedMorphFrame>, i: u32, a: nat, b: nat, bound: nat, n: nat)
    requires
        a < b <= bound,
        morph_walk(frames, i, a) == morph_walk(frames, i, b),
        forall|k: nat| k <= bound ==> morph_continues(frames, #[trigger] morph_walk(frames, i, k)),
    ensures
        morph_continues(frames, morph_walk(frames, i, n)),
    decreases n,
{
    if n > bound {
        let t = (n - b) as nat;
        lemma_morph_walk_period(frames, i, a, b, t);
        assert(b + t == n);
        lemma_morph_periodic_endless(frames, i, a, b, bound, a + t);
    }
}

/// A morph keyframe chain is refused as cyclic exactly when following its next
/// indexes from the start never ends (so reading it keyframe by keyframe
/// would never finish).
pub proof fn law_morph_chain_cyclic_iff_endless(frames: Map<u32, LinkedMorphFrame>, index: u32)
    requires
        frames.dom().finite(),
    ensures
        spec_morph_chain(frames, index, frames.len()) == Err::<Seq<LinkedMorphFrame>, ReadError>(ReadError::CyclicKeyframes)
            <==> morph_chain_endless(frames, index),
{
    let len = frames.len();
    if morph_chain_endless(frames, index) {
        lemma_morph_endless_cyclic(frames, index, len);
    }
    if spec_morph_chain(frames, index, len) == Err::<Seq<LinkedMorphFrame>, ReadError>(ReadError::CyclicKeyframes) {
        assert forall|k: nat| k <= len implies morph_continues(frames, #[trigger] morph_walk(frames, index, k)) by {
            lemma_morph_cyclic_walk(frames, index, len, k);
        }
        let w = Seq::new(len + 1, |k: int| morph_walk(frames, index, k as nat)->0);
        assert(w.to_set().subset_of(frames.dom())) by {
            assert forall|j: u32| w.to_set().contains(j) implies frames.dom().contains(j) by {
                let k = choose|k: int| 0 <= k < w.len() && w[k] == j;
                assert(morph_continues(frames, morph_walk(frames, index, k as nat)));
            }
        }
        vstd::set_lib::lemma_len_subset(w.to_set(), frames.dom());
        if w.no_duplicates() {
            w.unique_seq_to_set();
            assert(false);
        }
        let (a, b) = choose|a: int, b: int| 0 <= a < w.len() && 0 <= b < w.len() && a != b && w[a] == w[b];
        let (lo, hi) = if a < b { (a as nat, b as nat) } else { (b as nat, a as nat) };
        assert(morph_continues(frames, morph_walk(frames, index, lo)));
        assert(morph_continues(frames, morph_walk(frames, index, hi)));
        assert(morph_walk(frames, index, lo) == morph_walk(frames, index, hi));
        assert forall|n: nat| morph_continues(frames, #[trigger] morph_walk(frames, index, n)) by {
            lemma_morph_periodic_endless(frames, index, lo, hi, len, n);
        }
    }
}


/// Every model's motion read from a project file has only bone and morph
/// keyframes.
pub proof fn law_model_has_only_bone_and_morph_keyframes(data: Seq<u8>, pos: int)
    ensures
        spec_read_model(data, pos) matches Ok((m, _)) ==> m.camera_keyframes.len() == 0
            && m.light_keyframes.len() == 0 && m.shadow_keyframes.len() == 0,
{
}

proof fn lemma_models_shape(data: Seq<u8>, pos: int, count: nat)
    ensures
        spec_read_fix_items(ModelItem, data, pos, count) matches Ok((ms, _)) ==> ms.len() == count
            && forall|i: int|
            0 <= i < ms.len() ==> (#[trigger] ms[i]).camera_keyframes.len() == 0
                && ms[i].light_keyframes.len() == 0 && ms[i].shadow_keyframes.len() == 0,
    decreases count,
{
    if count > 0 {
        if let Ok((m, p)) = spec_read_model(data, pos) {
            lemma_models_shape(data, p, (count - 1) as nat);
            if let Ok((rest, _)) = spec_read_fix_items(ModelItem, data, p, (count - 1) as nat) {
                let ms = seq![m] + rest;
                assert forall|i: int| 0 <= i < ms.len() implies (#[trigger] ms[i]).camera_keyframes.len() == 0
                    && ms[i].light_keyframes.len() == 0 && ms[i].shadow_keyframes.len() == 0 by {
                    if i > 0 {
                        assert(ms[i] == rest[i - 1]);
                    }
                }
            }
        }
    }
}

/// A project file gives one motion per model, as many as its model count
/// byte (right after the 54-byte header) says, and none of them has camera,
/// light or self-shadow keyframes.
pub proof fn law_pmm_motions(data: Seq<u8>)
    ensures
        spec_read_pmm(data) matches Ok(ms) ==> ms.len() == data[54] && forall|i: int|
            0 <= i < ms.len() ==> (#[trigger] ms[i]).camera_keyframes.len() == 0
                && ms[i].light_keyframes.len() == 0 && ms[i].shadow_keyframes.len() == 0,
{
    if let Ok((_, p1)) = spec_read_header(data, 0) {
        if let Ok((count, p2)) = spec_read_u8(data, p1) {
            lemma_models_shape(data, p2, count as nat);
        }
    }
}

proof fn lemma_chain_nonempty(frames: Map<u32, SpecLinkedBoneFrame>, index: u32, fuel: nat)
    ensures
        spec_bone_chain(frames, index, fuel) matches Ok(c) ==> c.len() >= 1,
    decreases fuel,
{
    if fuel > 0 && frames.contains_key(index) && frames[index].next != 0 {
        lemma_chain_nonempty(frames, frames[index].next, (fuel - 1) as nat);
    }
}

/// Every bone of a model gets at least one keyframe, and every bone
/// keyframe is named after a bone of the model.
pub proof fn law_bone_keyframes_named(frames: Map<u32, SpecLinkedBoneFrame>, names: Seq<Seq<char>>)
    ensures
        spec_bone_keyframes(frames, names) matches Ok(ks) ==> ks.len() >= names.len() && forall|i: int|
            0 <= i < ks.len() ==> names.contains(#[trigger] ks[i].name),
    decreases names.len(),
{
    if names.len() > 0 {
        let init = names.drop_last();
        law_bone_keyframes_named(frames, init);
        if let Ok(prev) = spec_bone_keyframes(frames, init) {
            lemma_chain_nonempty(frames, (names.len() - 1) as u32, frames.len());
            if let Ok(chain) = spec_bone_chain(frames, (names.len() - 1) as u32, frames.len()) {
                let named = chain.map_values(|f: SpecLinkedBoneFrame| named_bone_keyframe(names.last(), f));
                let ks = prev + named;
                assert forall|i: int| 0 <= i < ks.len() implies names.contains(#[trigger] ks[i].name) by {
                    if i < prev.len() {
                        assert(ks[i] == prev[i]);
                        assert(init.contains(prev[i].name));
                        let j = choose|j: int| 0 <= j < init.len() && init[j] == prev[i].name;
                        assert(names[j] == init[j]);
                    } else {
                        assert(ks[i] == named[i - prev.len()]);
                        assert(names[names.len() - 1] == names.last());
                    }
                }
            }
        }
    }
}

proof fn lemma_morph_chain_nonempty(frames: Map<u32, LinkedMorphFrame>, index: u32, fuel: nat)
    ensures
        spec_morph_chain(frames, index, fuel) matches Ok(c) ==> c.len() >= 1,
    decreases fuel,
{
    if fuel > 0 && frames.contains_key(index) && frames[index].next != 0 {
        lemma_morph_chain_nonempty(frames, frames[index].next, (fuel - 1) as nat);
    }
}

/// Every morph of a model gets at least one keyframe, and every morph
/// keyframe is named after a morph of the model.
pub proof fn law_morph_keyframes_named(frames: Map<u32, LinkedMorphFrame>, names: Seq<Seq<char>>)
    ensures
        spec_morph_keyframes(frames, names) matches Ok(ks) ==> ks.len() >= names.len() && forall|i: int|
            0 <= i < ks.len() ==> names.contains(#[trigger] ks[i].name),
    decreases names.len(),
{
    if names.len() > 0 {
        let init = names.drop_last();
        law_morph_keyframes_named(frames, init);
        if let Ok(prev) = spec_morph_keyframes(frames, init) {
            lemma_morph_chain_nonempty(frames, (names.len() - 1) as u32, frames.len());
            if let Ok(chain) = spec_morph_chain(frames, (names.len() - 1) as u32, frames.len()) {
                let named = chain.map_values(|f: LinkedMorphFrame| named_morph_keyframe(names.last(), f));
                let ks = prev + named;
                assert forall|i: int| 0 <= i < ks.len() implies names.contains(#[trigger] ks[i].name) by {
                    if i < prev.len() {
                        assert(ks[i] == prev[i]);
                        assert(init.contains(prev[i].name));
                        let j = choose|j: int| 0 <= j < init.len() && init[j] == prev[i].name;
                        assert(names[j] == init[j]);
                    } else {
                        assert(ks[i] == named[i - prev.len()]);
                        assert(names[names.len() - 1] == names.last());
                    }
                }
            }
        }
    }
}


/// `recs` are the records met walking next indexes from `index`, in order:
/// the record at each step is stored, every record but the last continues
/// the chain, and the last one ends it (its next index is 0).
pub open spec fn morph_walked(frames: Map<u32, LinkedMorphFrame>, index: u32, recs: Seq<LinkedMorphFrame>) -> bool {
    &&& recs.len() >= 1
    &&& forall|k: nat|
        k < recs.len() ==> (#[trigger] morph_walk(frames, index, k)) is Some && frames.contains_key(
            morph_walk(frames, index, k)->0,
        ) && recs[k as int] == frames[morph_walk(frames, index, k)->0]
    &&& forall|k: int| 0 <= k < recs.len() - 1 ==> (#[trigger] recs[k]).next != 0
    &&& recs.last().next == 0
}

proof fn lemma_morph_chain_walked(frames: Map<u32, LinkedMorphFrame>, index: u32, fuel: nat)
    requires
        spec_morph_chain(frames, index, fuel) is Ok,
    ensures
        morph_walked(frames, index, spec_morph_chain(frames, index, fuel)->Ok_0),
    decreases fuel,
{
    let recs = spec_morph_chain(frames, index, fuel)->Ok_0;
    if frames[index].next == 0 {
        assert(morph_walk(frames, index, 0) == Some(index));
    } else {
        let nx = frames[index].next;
        lemma_morph_chain_walked(frames, nx, (fuel - 1) as nat);
        let rest = spec_morph_chain(frames, nx, (fuel - 1) as nat)->Ok_0;
        assert(recs =~= seq![frames[index]] + rest);
        assert forall|k: nat| k < recs.len() implies (#[trigger] morph_walk(frames, index, k)) is Some
            && frames.contains_key(morph_walk(frames, index, k)->0) && recs[k as int] == frames[morph_walk(
            frames,
            index,
            k,
        )->0] by {
            if k == 0 {
                assert(morph_walk(frames, index, 0) == Some(index));
            } else {
                lemma_morph_walk_shift(frames, index, (k - 1) as nat);
                assert(morph_walk(frames, nx, (k - 1) as nat) is Some);
                assert(recs[k as int] == rest[k - 1]);
            }
        }
        assert forall|k: int| 0 <= k < recs.len() - 1 implies (#[trigger] recs[k]).next != 0 by {
            if k > 0 {
                assert(recs[k] == rest[k - 1]);
            }
        }
        assert(recs.last() == rest.last());
    }
}

/// The morph keyframes of a model are, morph by morph in order, the records met
/// walking each morph's chain of next indexes from its own data index to the
/// record that ends it, every one of them, named after the morph.
pub proof fn law_morph_keyframes_walk_chains(frames: Map<u32, LinkedMorphFrame>, names: Seq<Seq<char>>, i: int)
    requires
        spec_morph_keyframes(frames, names) is Ok,
        names.len() <= u32::MAX,
        0 <= i < names.len(),
    ensures
        spec_morph_keyframes(frames, names.take(i)) is Ok,
        spec_morph_keyframes(frames, names.take(i + 1)) is Ok,
        exists|recs: Seq<LinkedMorphFrame>|
            #[trigger] morph_walked(frames, i as u32, recs) && spec_morph_keyframes(frames, names.take(i + 1))->Ok_0
                == spec_morph_keyframes(frames, names.take(i))->Ok_0 + recs.map_values(
                |f: LinkedMorphFrame| named_morph_keyframe(names[i], f),
            ),
{
    if spec_morph_keyframes(frames, names.take(i)) is Err {
        lemma_morph_keyframes_err(frames, names, i);
    }
    if spec_morph_keyframes(frames, names.take(i + 1)) is Err {
        lemma_morph_keyframes_err(frames, names, i + 1);
    }
    let pre = names.take(i + 1);
    assert(pre.drop_last() =~= names.take(i));
    assert(pre.last() == names[i]);
    assert((pre.len() - 1) as u32 == i as u32);
    let recs = spec_morph_chain(frames, i as u32, frames.len())->Ok_0;
    lemma_morph_chain_walked(frames, i as u32, frames.len());
    assert(morph_walked(frames, i as u32, recs));
}

/// `recs` are the records met walking next indexes from `index`, in order:
/// the record at each step is stored, every record but the last continues
/// the chain, and the last one ends it (its next index is 0).
pub open spec fn bone_walked(frames: Map<u32, SpecLinkedBoneFrame>, index: u32, recs: Seq<SpecLinkedBoneFrame>) -> bool {
    &&& recs.len() >= 1
    &&& forall|k: nat|
        k < recs.len() ==> (#[trigger] bone_walk(frames, index, k)) is Some && frames.contains_key(
            bone_walk(frames, index, k)->0,
        ) && recs[k as int] == frames[bone_walk(frames, index, k)->0]
    &&& forall|k: int| 0 <= k < recs.len() - 1 ==> (#[trigger] recs[k]).next != 0
    &&& recs.last().next == 0
}

proof fn lemma_bone_chain_walked(frames: Map<u32, SpecLinkedBoneFrame>, index: u32, fuel: nat)
    requires
        spec_bone_chain(frames, index, fuel) is Ok,
    ensures
        bone_walked(frames, index, spec_bone_chain(frames, index, fuel)->Ok_0),
    decreases fuel,
{
    let recs = spec_bone_chain(frames, index, fuel)->Ok_0;
    if frames[index].next == 0 {
        assert(bone_walk(frames, index, 0) == Some(index));
    } else {
        let nx = frames[index].next;
        lemma_bone_chain_walked(frames, nx, (fuel - 1) as nat);
        let rest = spec_bone_chain(frames, nx, (fuel - 1) as nat)->Ok_0;
        assert(recs =~= seq![frames[index]] + rest);
        assert forall|k: nat| k < recs.len() implies (#[trigger] bone_walk(frames, index, k)) is Some
            && frames.contains_key(bone_walk(frames, index, k)->0) && recs[k as int] == frames[bone_walk(
            frames,
            index,
            k,
        )->0] by {
            if k == 0 {
                assert(bone_walk(frames, index, 0) == Some(index));
            } else {
                lemma_bone_walk_shift(frames, index, (k - 1) as nat);
                assert(bone_walk(frames, nx, (k - 1) as nat) is Some);
                assert(recs[k as int] == rest[k - 1]);
            }
        }
        assert forall|k: int| 0 <= k < recs.len() - 1 implies (#[trigger] recs[k]).next != 0 by {
            if k > 0 {
                assert(recs[k] == rest[k - 1]);
            }
        }
        assert(recs.last() == rest.last());
    }
}

/// The bone keyframes of a model are, bone by bone in order, the records met
/// walking each bone's chain of next indexes from its own data index to the
/// record that ends it, every one of them, named after the bone.
pub proof fn law_bone_keyframes_walk_chains(frames: Map<u32, SpecLinkedBoneFrame>, names: Seq<Seq<char>>, i: int)
    requires
        spec_bone_keyframes(frames, names) is Ok,
        names.len() <= u32::MAX,
        0 <= i < names.len(),
    ensures
        spec_bone_keyframes(frames, names.take(i)) is Ok,
        spec_bone_keyframes(frames, names.take(i + 1)) is Ok,
        exists|recs: Seq<SpecLinkedBoneFrame>|
            #[trigger] bone_walked(frames, i as u32, recs) && spec_bone_keyframes(frames, names.take(i + 1))->Ok_0
                == spec_bone_keyframes(frames, names.take(i))->Ok_0 + recs.map_values(
                |f: SpecLinkedBoneFrame| named_bone_keyframe(names[i], f),
            ),
{
    if spec_bone_keyframes(frames, names.take(i)) is Err {
        lemma_bone_keyframes_err(frames, names, i);
    }
    if spec_bone_keyframes(frames, names.take(i + 1)) is Err {
        lemma_bone_keyframes_err(frames, names, i + 1);
    }
    let pre = names.take(i + 1);
    assert(pre.drop_last() =~= names.take(i));
    assert(pre.last() == names[i]);
    assert((pre.len() - 1) as u32 == i as u32);
    let recs = spec_bone_chain(frames, i as u32, frames.len())->Ok_0;
    lemma_bone_chain_walked(frames, i as u32, frames.len());
    assert(bone_walked(frames, i as u32, recs));
}


/// A project file header takes 54 bytes: it is read exactly when the file
/// holds 54 bytes from `pos` and the text of the first 30 of them (up to
/// the first zero byte) starts with [`PMM_HEADER`].
pub proof fn law_pmm_header(data: Seq<u8>, pos: int)
    ensures
        spec_read_header(data, pos) is Ok <==> fits(data, pos, 54) && starts_with(
            windows_31j_decode(until_nul(data.subrange(pos, pos + 30))),
            PMM_HEADER@,
        ),
        spec_read_header(data, pos) matches Ok((_, q)) ==> q == pos + 54,
{
}

/// The models of a project file stand back to back after the count byte
/// at offset 54: motion `i` is the model read where the first `i` models
/// end.
pub proof fn law_pmm_models_back_to_back(data: Seq<u8>, i: int)
    requires
        spec_read_pmm(data) is Ok,
        0 <= i < spec_read_pmm(data)->Ok_0.len(),
    ensures
        spec_read_fix_items(ModelItem, data, 55, i as nat) is Ok,
        spec_read_fix_items(ModelItem, data, 55, i as nat)->Ok_0.0 == spec_read_pmm(data)->Ok_0.take(i),
        spec_read_model(data, spec_read_fix_items(ModelItem, data, 55, i as nat)->Ok_0.1) is Ok,
        spec_read_model(data, spec_read_fix_items(ModelItem, data, 55, i as nat)->Ok_0.1)->Ok_0.0
            == spec_read_pmm(data)->Ok_0[i],
{
    let count = data[54] as nat;
    let ms = spec_read_pmm(data)->Ok_0;
    assert(spec_read_header(data, 0)->Ok_0.1 == 54);
    lemma_models_shape(data, 55, count);
    law_fix_items_split(ModelItem, data, 55, i as nat, (count - i) as nat);
    assert(i as nat + (count - i) as nat == count);
    let (xs, q) = spec_read_fix_items(ModelItem, data, 55, i as nat)->Ok_0;
    let (ys, q2) = spec_read_fix_items(ModelItem, data, q, (count - i) as nat)->Ok_0;
    lemma_fix_items_len(ModelItem, data, 55, i as nat);
    assert(ms == xs + ys);
    assert(ms.take(i) =~= xs);
    assert(ms[i] == ys[0]);
}


/// A length-prefixed string is a length byte `n` and `n` bytes decoded as
/// Windows-31J, and the read ends after them; when the file ends before the
/// `n` bytes, the bytes that are there are taken, filled up with zero bytes
/// to `n`, and the read ends at the end of the file.
pub proof fn law_v_string_layout(prefix: Seq<u8>, n: u8, text: Seq<u8>, rest: Seq<u8>)
    requires
        text.len() <= n,
        text.len() < n ==> rest.len() == 0,
    ensures
        spec_read_v_string(prefix + seq![n] + text + rest, prefix.len() as int) == Ok::<(Seq<char>, int), ReadError>(
            (windows_31j_decode(text + zeros((n - text.len()) as nat)), (prefix.len() + 1 + text.len()) as int),
        ),
{
    let data = prefix + seq![n] + text + rest;
    let p = prefix.len() as int;
    assert(data[p] == n);
    assert(data.subrange(p + 1, p + 1 + text.len()) =~= text);
}

} // verus!
