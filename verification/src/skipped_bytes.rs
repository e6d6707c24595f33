//! The layout of a model block: which bytes the project reader keeps, the
//! law that the bytes it reads past do not change what it reads, and where
//! each part of a block stands.
use vstd::prelude::*;

use crate::common::{
    available, fits, le_words, lemma_u32_le_roundtrip, lemma_words_bytes_len, law_words_write_read,
    u32_le_bytes, words_bytes, spec_u32_le, zeros, lemma_fixed_width_run, spec_read_fix_items, spec_read_items, spec_read_u32,
    spec_read_u8, ReadError, U32Item,
};
use crate::text::windows_31j_decode;
use crate::pmm::{
    bone_frame_at, morph_frame_at, op_frame_size, spec_read_bone_frame, spec_read_bone_frames,
    spec_read_bone_section, spec_read_model, spec_read_model_lists, spec_read_model_names,
    spec_read_model_panel, spec_read_model_tail, spec_read_morph_frame, spec_read_morph_frames,
    spec_read_morph_section, spec_read_v_string, LinkedMorphFrame, SpecLinkedBoneFrame, VStringItem,
};

verus! {

/// `lo <= i < hi`.
pub open spec fn within(i: int, lo: int, hi: int) -> bool {
    lo <= i && i < hi
}

/// `d1` and `d2` hold the same byte at every offset of `[lo, hi)`.
pub open spec fn same_bytes(d1: Seq<u8>, d2: Seq<u8>, lo: int, hi: int) -> bool {
    forall|i: int| lo <= i < hi ==> #[trigger] d1[i] == d2[i]
}

proof fn lemma_same_subrange(d1: Seq<u8>, d2: Seq<u8>, lo: int, hi: int)
    requires
        0 <= lo <= hi <= d1.len(),
        d1.len() == d2.len(),
        same_bytes(d1, d2, lo, hi),
    ensures
        d1.subrange(lo, hi) == d2.subrange(lo, hi),
{
    assert(d1.subrange(lo, hi) =~= d2.subrange(lo, hi));
}

// ---------------------------------------------------------------------------
// Keyframe records
// ---------------------------------------------------------------------------

/// Of the bone keyframe records read from `pos`, the bytes read past: the
/// previous index and the two flag bytes of each record.
pub open spec fn bone_frames_drop(
    data: Seq<u8>,
    pos: int,
    frames: Map<u32, SpecLinkedBoneFrame>,
    names_len: nat,
    count: nat,
    i: int,
) -> bool
    decreases count,
{
    if count == 0 {
        false
    } else {
        match spec_read_bone_frame(data, pos, frames, names_len) {
            Err(_) => false,
            Ok((m, q)) => within(i, q - 54, q - 50) || within(i, q - 2, q) || (q <= i && bone_frames_drop(
                data,
                q,
                m,
                names_len,
                (count - 1) as nat,
                i,
            )),
        }
    }
}

proof fn lemma_bone_frame_at_same(d1: Seq<u8>, d2: Seq<u8>, p: int)
    requires
        d1.len() == d2.len(),
        fits(d1, p, 58),
        same_bytes(d1, d2, p, p + 4),
        same_bytes(d1, d2, p + 8, p + 56),
    ensures
        bone_frame_at(d1, p) == bone_frame_at(d2, p),
{
    lemma_same_subrange(d1, d2, p, p + 4);
    lemma_same_subrange(d1, d2, p + 8, p + 12);
    lemma_same_subrange(d1, d2, p + 12, p + 16);
    lemma_same_subrange(d1, d2, p + 16, p + 20);
    lemma_same_subrange(d1, d2, p + 20, p + 24);
    lemma_same_subrange(d1, d2, p + 24, p + 28);
    assert forall|j: int| 0 <= j < 7 implies #[trigger] d1.subrange(p + 28 + 4 * j, p + 28 + 4 * j + 4)
        == d2.subrange(p + 28 + 4 * j, p + 28 + 4 * j + 4) by {
        lemma_same_subrange(d1, d2, p + 28 + 4 * j, p + 28 + 4 * j + 4);
    }
    assert(le_words(d1, p + 28, 3) =~= le_words(d2, p + 28, 3)) by {
        assert forall|j: int| 0 <= j < 3 implies #[trigger] le_words(d1, p + 28, 3)[j] == le_words(d2, p + 28, 3)[j] by {
            assert(d1.subrange(p + 28 + 4 * j, p + 28 + 4 * j + 4) == d2.subrange(p + 28 + 4 * j, p + 28 + 4 * j + 4));
        }
    }
    assert(le_words(d1, p + 40, 4) =~= le_words(d2, p + 40, 4)) by {
        assert forall|j: int| 0 <= j < 4 implies #[trigger] le_words(d1, p + 40, 4)[j] == le_words(d2, p + 40, 4)[j] by {
            let k = j + 3;
            assert(d1.subrange(p + 28 + 4 * k, p + 28 + 4 * k + 4) == d2.subrange(p + 28 + 4 * k, p + 28 + 4 * k + 4));
        }
    }
}

proof fn lemma_bone_frames_end(d: Seq<u8>, pos: int, frames: Map<u32, SpecLinkedBoneFrame>, names_len: nat, count: nat)
    requires
        spec_read_bone_frames(d, pos, frames, names_len, count) is Ok,
    ensures
        pos <= spec_read_bone_frames(d, pos, frames, names_len, count)->Ok_0.1,
    decreases count,
{
    if count > 0 {
        let (m, q) = spec_read_bone_frame(d, pos, frames, names_len)->Ok_0;
        lemma_bone_frames_end(d, q, m, names_len, (count - 1) as nat);
    }
}

proof fn lemma_bone_frames_same(
    d1: Seq<u8>,
    d2: Seq<u8>,
    pos: int,
    frames: Map<u32, SpecLinkedBoneFrame>,
    names_len: nat,
    count: nat,
)
    requires
        d1.len() == d2.len(),
        0 <= pos,
        spec_read_bone_frames(d1, pos, frames, names_len, count) is Ok,
        forall|i: int|
            pos <= i < spec_read_bone_frames(d1, pos, frames, names_len, count)->Ok_0.1 && !bone_frames_drop(
                d1,
                pos,
                frames,
                names_len,
                count,
                i,
            ) ==> #[trigger] d1[i] == d2[i],
    ensures
        spec_read_bone_frames(d2, pos, frames, names_len, count) == spec_read_bone_frames(
            d1,
            pos,
            frames,
            names_len,
            count,
        ),
    decreases count,
{
    if count > 0 {
        let (m, q) = spec_read_bone_frame(d1, pos, frames, names_len)->Ok_0;
        let end = spec_read_bone_frames(d1, pos, frames, names_len, count)->Ok_0.1;
        lemma_bone_frames_end(d1, q, m, names_len, (count - 1) as nat);
        let p = q - 58;
        assert(same_bytes(d1, d2, pos, p + 4)) by {
            assert forall|i: int| pos <= i < p + 4 implies #[trigger] d1[i] == d2[i] by {
                assert(!bone_frames_drop(d1, pos, frames, names_len, count, i));
            }
        }
        assert(same_bytes(d1, d2, p + 8, p + 56)) by {
            assert forall|i: int| p + 8 <= i < p + 56 implies #[trigger] d1[i] == d2[i] by {
                assert(!bone_frames_drop(d1, pos, frames, names_len, count, i));
            }
        }
        if frames.len() >= names_len {
            lemma_same_subrange(d1, d2, pos, pos + 4);
        }
        lemma_bone_frame_at_same(d1, d2, p);
        assert(spec_read_bone_frame(d2, pos, frames, names_len) == spec_read_bone_frame(d1, pos, frames, names_len));
        assert forall|i: int|
            q <= i < spec_read_bone_frames(d1, q, m, names_len, (count - 1) as nat)->Ok_0.1 && !bone_frames_drop(
                d1,
                q,
                m,
                names_len,
                (count - 1) as nat,
                i,
            ) implies #[trigger] d1[i] == d2[i] by {
            assert(!bone_frames_drop(d1, pos, frames, names_len, count, i));
        }
        lemma_bone_frames_same(d1, d2, q, m, names_len, (count - 1) as nat);
    }
}


/// Of the morph keyframe records read from `pos`, the bytes read past: the
/// previous index and the flag byte of each record.
pub open spec fn morph_frames_drop(
    data: Seq<u8>,
    pos: int,
    frames: Map<u32, LinkedMorphFrame>,
    names_len: nat,
    count: nat,
    i: int,
) -> bool
    decreases count,
{
    if count == 0 {
        false
    } else {
        match spec_read_morph_frame(data, pos, frames, names_len) {
            Err(_) => false,
            Ok((m, q)) => within(i, q - 13, q - 9) || within(i, q - 1, q) || (q <= i && morph_frames_drop(
                data,
                q,
                m,
                names_len,
                (count - 1) as nat,
                i,
            )),
        }
    }
}

proof fn lemma_morph_frames_end(d: Seq<u8>, pos: int, frames: Map<u32, LinkedMorphFrame>, names_len: nat, count: nat)
    requires
        spec_read_morph_frames(d, pos, frames, names_len, count) is Ok,
    ensures
        pos <= spec_read_morph_frames(d, pos, frames, names_len, count)->Ok_0.1,
    decreases count,
{
    if count > 0 {
        let (m, q) = spec_read_morph_frame(d, pos, frames, names_len)->Ok_0;
        lemma_morph_frames_end(d, q, m, names_len, (count - 1) as nat);
    }
}

proof fn lemma_morph_frames_same(
    d1: Seq<u8>,
    d2: Seq<u8>,
    pos: int,
    frames: Map<u32, LinkedMorphFrame>,
    names_len: nat,
    count: nat,
)
    requires
        d1.len() == d2.len(),
        0 <= pos,
        spec_read_morph_frames(d1, pos, frames, names_len, count) is Ok,
        forall|i: int|
            pos <= i < spec_read_morph_frames(d1, pos, frames, names_len, count)->Ok_0.1 && !morph_frames_drop(
                d1,
                pos,
                frames,
                names_len,
                count,
                i,
            ) ==> #[trigger] d1[i] == d2[i],
    ensures
        spec_read_morph_frames(d2, pos, frames, names_len, count) == spec_read_morph_frames(
            d1,
            pos,
            frames,
            names_len,
            count,
        ),
    decreases count,
{
    if count > 0 {
        let (m, q) = spec_read_morph_frame(d1, pos, frames, names_len)->Ok_0;
        lemma_morph_frames_end(d1, q, m, names_len, (count - 1) as nat);
        let p = q - 17;
        assert(same_bytes(d1, d2, pos, p + 4)) by {
            assert forall|i: int| pos <= i < p + 4 implies #[trigger] d1[i] == d2[i] by {
                assert(!morph_frames_drop(d1, pos, frames, names_len, count, i));
            }
        }
        assert(same_bytes(d1, d2, p + 8, p + 16)) by {
            assert forall|i: int| p + 8 <= i < p + 16 implies #[trigger] d1[i] == d2[i] by {
                assert(!morph_frames_drop(d1, pos, frames, names_len, count, i));
            }
        }
        if frames.len() >= names_len {
            lemma_same_subrange(d1, d2, pos, pos + 4);
        }
        lemma_same_subrange(d1, d2, p, p + 4);
        lemma_same_subrange(d1, d2, p + 8, p + 12);
        lemma_same_subrange(d1, d2, p + 12, p + 16);
        assert(morph_frame_at(d1, p) == morph_frame_at(d2, p));
        assert(spec_read_morph_frame(d2, pos, frames, names_len) == spec_read_morph_frame(d1, pos, frames, names_len));
        assert forall|i: int|
            q <= i < spec_read_morph_frames(d1, q, m, names_len, (count - 1) as nat)->Ok_0.1 && !morph_frames_drop(
                d1,
                q,
                m,
                names_len,
                (count - 1) as nat,
                i,
            ) implies #[trigger] d1[i] == d2[i] by {
            assert(!morph_frames_drop(d1, pos, frames, names_len, count, i));
        }
        lemma_morph_frames_same(d1, d2, q, m, names_len, (count - 1) as nat);
    }
}

// ---------------------------------------------------------------------------
// Keyframe sections
// ---------------------------------------------------------------------------

/// Of the bone keyframe section at `pos`, the bytes read past: those of its
/// records (its count word is kept).
pub open spec fn bone_section_drop(data: Seq<u8>, pos: int, names_len: nat, i: int) -> bool {
    match spec_read_bone_frames(data, pos, Map::empty(), names_len, names_len) {
        Err(_) => false,
        Ok((m, p)) => (i < p && bone_frames_drop(data, pos, Map::empty(), names_len, names_len, i)) || (p + 4
            <= i && match spec_read_u32(data, p) {
            Ok((n, q)) => bone_frames_drop(data, q, m, names_len, n as nat, i),
            Err(_) => false,
        }),
    }
}

/// Of the morph keyframe section at `pos`, the bytes read past: those of
/// its records (its count word is kept).
pub open spec fn morph_section_drop(data: Seq<u8>, pos: int, names_len: nat, i: int) -> bool {
    match spec_read_morph_frames(data, pos, Map::empty(), names_len, names_len) {
        Err(_) => false,
        Ok((m, p)) => (i < p && morph_frames_drop(data, pos, Map::empty(), names_len, names_len, i)) || (p + 4
            <= i && match spec_read_u32(data, p) {
            Ok((n, q)) => morph_frames_drop(data, q, m, names_len, n as nat, i),
            Err(_) => false,
        }),
    }
}

proof fn lemma_bone_section_same(d1: Seq<u8>, d2: Seq<u8>, pos: int, names_len: nat)
    requires
        d1.len() == d2.len(),
        0 <= pos,
        spec_read_bone_section(d1, pos, names_len) is Ok,
        forall|i: int|
            pos <= i < spec_read_bone_section(d1, pos, names_len)->Ok_0.1 && !bone_section_drop(d1, pos, names_len, i)
                ==> #[trigger] d1[i] == d2[i],
    ensures
        pos <= spec_read_bone_section(d1, pos, names_len)->Ok_0.1,
        spec_read_bone_section(d2, pos, names_len) == spec_read_bone_section(d1, pos, names_len),
{
    let e = Map::<u32, SpecLinkedBoneFrame>::empty();
    let (m, p) = spec_read_bone_frames(d1, pos, e, names_len, names_len)->Ok_0;
    lemma_bone_frames_end(d1, pos, e, names_len, names_len);
    let (n, q) = spec_read_u32(d1, p)->Ok_0;
    lemma_bone_frames_end(d1, q, m, names_len, n as nat);
    assert forall|i: int|
        pos <= i < p && !bone_frames_drop(d1, pos, e, names_len, names_len, i) implies #[trigger] d1[i] == d2[i] by {
        assert(!bone_section_drop(d1, pos, names_len, i));
    }
    lemma_bone_frames_same(d1, d2, pos, e, names_len, names_len);
    assert(same_bytes(d1, d2, p, p + 4)) by {
        assert forall|i: int| p <= i < p + 4 implies #[trigger] d1[i] == d2[i] by {
            assert(!bone_section_drop(d1, pos, names_len, i));
        }
    }
    lemma_same_subrange(d1, d2, p, p + 4);
    assert forall|i: int|
        q <= i < spec_read_bone_frames(d1, q, m, names_len, n as nat)->Ok_0.1 && !bone_frames_drop(
            d1,
            q,
            m,
            names_len,
            n as nat,
            i,
        ) implies #[trigger] d1[i] == d2[i] by {
        assert(!bone_section_drop(d1, pos, names_len, i));
    }
    lemma_bone_frames_same(d1, d2, q, m, names_len, n as nat);
}

proof fn lemma_morph_section_same(d1: Seq<u8>, d2: Seq<u8>, pos: int, names_len: nat)
    requires
        d1.len() == d2.len(),
        0 <= pos,
        spec_read_morph_section(d1, pos, names_len) is Ok,
        forall|i: int|
            pos <= i < spec_read_morph_section(d1, pos, names_len)->Ok_0.1 && !morph_section_drop(d1, pos, names_len, i)
                ==> #[trigger] d1[i] == d2[i],
    ensures
        pos <= spec_read_morph_section(d1, pos, names_len)->Ok_0.1,
        spec_read_morph_section(d2, pos, names_len) == spec_read_morph_section(d1, pos, names_len),
{
    let e = Map::<u32, LinkedMorphFrame>::empty();
    let (m, p) = spec_read_morph_frames(d1, pos, e, names_len, names_len)->Ok_0;
    lemma_morph_frames_end(d1, pos, e, names_len, names_len);
    let (n, q) = spec_read_u32(d1, p)->Ok_0;
    lemma_morph_frames_end(d1, q, m, names_len, n as nat);
    assert forall|i: int|
        pos <= i < p && !morph_frames_drop(d1, pos, e, names_len, names_len, i) implies #[trigger] d1[i] == d2[i] by {
        assert(!morph_section_drop(d1, pos, names_len, i));
    }
    lemma_morph_frames_same(d1, d2, pos, e, names_len, names_len);
    assert(same_bytes(d1, d2, p, p + 4)) by {
        assert forall|i: int| p <= i < p + 4 implies #[trigger] d1[i] == d2[i] by {
            assert(!morph_section_drop(d1, pos, names_len, i));
        }
    }
    lemma_same_subrange(d1, d2, p, p + 4);
    assert forall|i: int|
        q <= i < spec_read_morph_frames(d1, q, m, names_len, n as nat)->Ok_0.1 && !morph_frames_drop(
            d1,
            q,
            m,
            names_len,
            n as nat,
            i,
        ) implies #[trigger] d1[i] == d2[i] by {
        assert(!morph_section_drop(d1, pos, names_len, i));
    }
    lemma_morph_frames_same(d1, d2, q, m, names_len, n as nat);
}


// ---------------------------------------------------------------------------
// Strings and lists
// ---------------------------------------------------------------------------

proof fn lemma_v_string_same(d1: Seq<u8>, d2: Seq<u8>, p: int)
    requires
        d1.len() == d2.len(),
        spec_read_v_string(d1, p) is Ok,
        same_bytes(d1, d2, p, spec_read_v_string(d1, p)->Ok_0.1),
    ensures
        p + 1 <= spec_read_v_string(d1, p)->Ok_0.1,
        spec_read_v_string(d2, p) == spec_read_v_string(d1, p),
{
    assert(d1[p] == d2[p]);
    let k = available(d1, p + 1, d1[p] as nat);
    lemma_same_subrange(d1, d2, p + 1, p + 1 + k);
}

proof fn lemma_v_string_end(d1: Seq<u8>, d2: Seq<u8>, p: int)
    requires
        d1.len() == d2.len(),
        0 <= p < d1.len(),
        d1[p] == d2[p],
    ensures
        spec_read_v_string(d1, p) is Ok,
        spec_read_v_string(d2, p) is Ok,
        p + 1 <= spec_read_v_string(d1, p)->Ok_0.1,
        spec_read_v_string(d2, p)->Ok_0.1 == spec_read_v_string(d1, p)->Ok_0.1,
{
}

proof fn lemma_v_strings_end(d: Seq<u8>, p: int, count: nat)
    requires
        spec_read_fix_items(VStringItem, d, p, count) is Ok,
    ensures
        p <= spec_read_fix_items(VStringItem, d, p, count)->Ok_0.1,
    decreases count,
{
    if count > 0 {
        let (_, q) = spec_read_v_string(d, p)->Ok_0;
        lemma_v_strings_end(d, q, (count - 1) as nat);
    }
}

proof fn lemma_v_strings_same(d1: Seq<u8>, d2: Seq<u8>, p: int, count: nat)
    requires
        d1.len() == d2.len(),
        spec_read_fix_items(VStringItem, d1, p, count) is Ok,
        same_bytes(d1, d2, p, spec_read_fix_items(VStringItem, d1, p, count)->Ok_0.1),
    ensures
        spec_read_fix_items(VStringItem, d2, p, count) == spec_read_fix_items(VStringItem, d1, p, count),
    decreases count,
{
    if count > 0 {
        let (_, q) = spec_read_v_string(d1, p)->Ok_0;
        lemma_v_strings_end(d1, q, (count - 1) as nat);
        lemma_v_string_same(d1, d2, p);
        lemma_v_strings_same(d1, d2, q, (count - 1) as nat);
    }
}

/// The offset just after the model name, a length-prefixed string that
/// follows the model number byte at `pos`.
pub open spec fn model_name_end(data: Seq<u8>, pos: int) -> int {
    spec_read_v_string(data, pos + 1)->Ok_0.1
}

/// The offset just after the two name lists (bones, then morphs) at `pos`.
pub open spec fn name_lists_end(data: Seq<u8>, pos: int) -> int {
    spec_read_items(VStringItem, data, spec_read_items(VStringItem, data, pos)->Ok_0.1)->Ok_0.1
}

/// The offset just after the list of IK bone indexes that follows the name
/// lists at `pos`.
pub open spec fn ik_list_end(data: Seq<u8>, pos: int) -> int {
    spec_read_items(U32Item, data, name_lists_end(data, pos))->Ok_0.1
}

proof fn lemma_names_same(d1: Seq<u8>, d2: Seq<u8>, pos: int)
    requires
        d1.len() == d2.len(),
        spec_read_model_names(d1, pos) is Ok,
        same_bytes(d1, d2, pos + 1, model_name_end(d1, pos) + 1),
    ensures
        0 <= pos,
        pos + 2 <= model_name_end(d1, pos) + 1 <= spec_read_model_names(d1, pos)->Ok_0.1,
        spec_read_model_names(d2, pos) == spec_read_model_names(d1, pos),
{
    let ne = model_name_end(d1, pos);
    lemma_v_string_same(d1, d2, pos + 1);
    lemma_v_string_end(d1, d2, ne);
}

proof fn lemma_u32_run(d: Seq<u8>, p: int, n: nat)
    requires
        0 <= p,
    ensures
        spec_read_fix_items(U32Item, d, p, n) is Ok <==> (n == 0 || fits(d, p, 4 * n as int)),
        spec_read_fix_items(U32Item, d, p, n) matches Ok((vs, q)) ==> q == p + 4 * n && vs.len() == n,
{
    lemma_fixed_width_run(U32Item, d, p, n, 4);
    assert(n * 4 == 4 * n);
}

proof fn lemma_lists_same(d1: Seq<u8>, d2: Seq<u8>, pos: int)
    requires
        d1.len() == d2.len(),
        0 <= pos,
        spec_read_model_lists(d1, pos) is Ok,
        same_bytes(d1, d2, pos, name_lists_end(d1, pos) + 4),
        same_bytes(d1, d2, ik_list_end(d1, pos), ik_list_end(d1, pos) + 4),
    ensures
        pos + 8 <= name_lists_end(d1, pos),
        name_lists_end(d1, pos) + 4 <= ik_list_end(d1, pos),
        ik_list_end(d1, pos) + 4 <= spec_read_model_lists(d1, pos)->Ok_0.1,
        spec_read_model_lists(d2, pos) == spec_read_model_lists(d1, pos),
{
    let (n0, q0) = spec_read_u32(d1, pos)->Ok_0;
    let bn = spec_read_items(VStringItem, d1, pos)->Ok_0.1;
    lemma_v_strings_end(d1, q0, n0 as nat);
    let (n1, q1) = spec_read_u32(d1, bn)->Ok_0;
    let mn = name_lists_end(d1, pos);
    lemma_v_strings_end(d1, q1, n1 as nat);
    lemma_same_subrange(d1, d2, pos, pos + 4);
    lemma_v_strings_same(d1, d2, q0, n0 as nat);
    lemma_same_subrange(d1, d2, bn, bn + 4);
    lemma_v_strings_same(d1, d2, q1, n1 as nat);
    lemma_same_subrange(d1, d2, mn, mn + 4);
    let (n2, q2) = spec_read_u32(d1, mn)->Ok_0;
    lemma_u32_run(d1, q2, n2 as nat);
    lemma_u32_run(d2, q2, n2 as nat);
    let ik = ik_list_end(d1, pos);
    lemma_same_subrange(d1, d2, ik, ik + 4);
    let (n3, q3) = spec_read_u32(d1, ik)->Ok_0;
    lemma_u32_run(d1, q3, n3 as nat);
    lemma_u32_run(d2, q3, n3 as nat);
}

proof fn lemma_panel_same(d1: Seq<u8>, d2: Seq<u8>, pos: int)
    requires
        d1.len() == d2.len(),
        spec_read_model_panel(d1, pos) is Ok,
        d1[pos + 22] == d2[pos + 22],
    ensures
        pos + 23 <= spec_read_model_panel(d1, pos)->Ok_0.1,
        spec_read_model_panel(d2, pos) == spec_read_model_panel(d1, pos),
{
}

proof fn lemma_tail_same(
    d1: Seq<u8>,
    d2: Seq<u8>,
    pos: int,
    bone_count: nat,
    morph_count: nat,
    ik_count: nat,
    op_count: nat,
)
    requires
        d1.len() == d2.len(),
        spec_read_model_tail(d1, pos, bone_count, morph_count, ik_count, op_count) is Ok,
        same_bytes(
            d1,
            d2,
            pos + op_frame_size(ik_count, op_count, true),
            pos + op_frame_size(ik_count, op_count, true) + 4,
        ),
    ensures
        pos + op_frame_size(ik_count, op_count, true) + 4 <= spec_read_model_tail(
            d1,
            pos,
            bone_count,
            morph_count,
            ik_count,
            op_count,
        )->Ok_0.1,
        spec_read_model_tail(d2, pos, bone_count, morph_count, ik_count, op_count) == spec_read_model_tail(
            d1,
            pos,
            bone_count,
            morph_count,
            ik_count,
            op_count,
        ),
{
    let init = pos + op_frame_size(ik_count, op_count, true);
    lemma_same_subrange(d1, d2, init, init + 4);
    let (n, _) = spec_read_u32(d1, init)->Ok_0;
    assert(n as nat * op_frame_size(ik_count, op_count, false) >= 0) by (nonlinear_arith);
    assert(bone_count * 31 + morph_count * 4 >= 0) by (nonlinear_arith);
}


// ---------------------------------------------------------------------------
// A whole model
// ---------------------------------------------------------------------------

/// Whether the model reader reads past the byte at offset `i` of the model
/// block at `pos` without keeping it: the model number, the English name
/// (all but its length byte), the file path and layout byte, the IK and
/// outside-parent bone indexes (all but their counts), the panel state (all
/// but the count byte that sizes it), the previous-index and flag bytes of
/// each keyframe record, and the rest of the model after the keyframes
/// (all but the count of outside-parent records).
pub open spec fn model_drops(data: Seq<u8>, pos: int, i: int) -> bool {
    match spec_read_model_names(data, pos) {
        Err(_) => false,
        Ok((_, p1)) => match spec_read_model_lists(data, p1) {
            Err(_) => false,
            Ok((l, p2)) => match spec_read_model_panel(data, p2) {
                Err(_) => false,
                Ok((_, p3)) => match spec_read_bone_section(data, p3, l.bone_names.len()) {
                    Err(_) => false,
                    Ok((_, p4)) => match spec_read_morph_section(data, p4, l.morph_names.len()) {
                        Err(_) => false,
                        Ok((_, p5)) => match spec_read_model_tail(
                            data,
                            p5,
                            l.bone_names.len(),
                            l.morph_names.len(),
                            l.ik_count,
                            l.op_count,
                        ) {
                            Err(_) => false,
                            Ok((_, p6)) => {
                                let init = p5 + op_frame_size(l.ik_count, l.op_count, true);
                                ||| i == pos
                                ||| within(i, model_name_end(data, pos) + 1, p1)
                                ||| within(i, name_lists_end(data, p1) + 4, ik_list_end(data, p1))
                                ||| within(i, ik_list_end(data, p1) + 4, p2)
                                ||| within(i, p2, p2 + 22)
                                ||| within(i, p2 + 23, p3)
                                ||| within(i, p3, p4) && bone_section_drop(data, p3, l.bone_names.len(), i)
                                ||| within(i, p4, p5) && morph_section_drop(data, p4, l.morph_names.len(), i)
                                ||| within(i, p5, init)
                                ||| within(i, init + 4, p6)
                            },
                        },
                    },
                },
            },
        },
    }
}

/// Two files that differ only in bytes that the model reader reads past
/// ([`model_drops`] of the first) read as the same model: the same motion,
/// ending at the same offset.
pub proof fn law_model_ignores_skipped_bytes(d1: Seq<u8>, d2: Seq<u8>, pos: int)
    requires
        spec_read_model(d1, pos) is Ok,
        d2.len() == d1.len(),
        forall|i: int| 0 <= i < d1.len() && !model_drops(d1, pos, i) ==> #[trigger] d1[i] == d2[i],
    ensures
        spec_read_model(d2, pos) == spec_read_model(d1, pos),
{
    let (_, p1) = spec_read_model_names(d1, pos)->Ok_0;
    let (l, p2) = spec_read_model_lists(d1, p1)->Ok_0;
    let (_, p3) = spec_read_model_panel(d1, p2)->Ok_0;
    let nb = l.bone_names.len();
    let nm = l.morph_names.len();
    let (_, p4) = spec_read_bone_section(d1, p3, nb)->Ok_0;
    let (_, p5) = spec_read_morph_section(d1, p4, nm)->Ok_0;
    let (_, p6) = spec_read_model_tail(d1, p5, nb, nm, l.ik_count, l.op_count)->Ok_0;
    let init = p5 + op_frame_size(l.ik_count, l.op_count, true);
    // the layout of the block: each part starts where the one before ends
    lemma_names_same(d1, d1, pos);
    lemma_lists_same(d1, d1, p1);
    lemma_panel_same(d1, d1, p2);
    lemma_bone_section_same(d1, d1, p3, nb);
    lemma_morph_section_same(d1, d1, p4, nm);
    lemma_tail_same(d1, d1, p5, nb, nm, l.ik_count, l.op_count);
    assert(same_bytes(d1, d2, pos + 1, model_name_end(d1, pos) + 1)) by {
        assert forall|i: int| pos + 1 <= i < model_name_end(d1, pos) + 1 implies #[trigger] d1[i] == d2[i] by {
            assert(!model_drops(d1, pos, i));
        }
    }
    lemma_names_same(d1, d2, pos);
    let lists = name_lists_end(d1, p1);
    let ik = ik_list_end(d1, p1);
    assert(same_bytes(d1, d2, p1, lists + 4) && same_bytes(d1, d2, ik, ik + 4)) by {
        assert forall|i: int| p1 <= i < lists + 4 implies #[trigger] d1[i] == d2[i] by {
            assert(!model_drops(d1, pos, i));
        }
        assert forall|i: int| ik <= i < ik + 4 implies #[trigger] d1[i] == d2[i] by {
            assert(!model_drops(d1, pos, i));
        }
    }
    lemma_lists_same(d1, d2, p1);
    assert(d1[p2 + 22] == d2[p2 + 22]) by {
        assert(!model_drops(d1, pos, p2 + 22));
    }
    lemma_panel_same(d1, d2, p2);
    assert forall|i: int| p3 <= i < p4 && !bone_section_drop(d1, p3, nb, i) implies #[trigger] d1[i] == d2[i] by {
        assert(!model_drops(d1, pos, i));
    }
    lemma_bone_section_same(d1, d2, p3, nb);
    assert forall|i: int| p4 <= i < p5 && !morph_section_drop(d1, p4, nm, i) implies #[trigger] d1[i] == d2[i] by {
        assert(!model_drops(d1, pos, i));
    }
    lemma_morph_section_same(d1, d2, p4, nm);
    assert(same_bytes(d1, d2, init, init + 4)) by {
        assert forall|i: int| init <= i < init + 4 implies #[trigger] d1[i] == d2[i] by {
            assert(!model_drops(d1, pos, i));
        }
    }
    lemma_tail_same(d1, d2, p5, nb, nm, l.ik_count, l.op_count);
}


/// The rest of a model after its keyframes is laid out as: the initial
/// outside-parent record (14 bytes, one flag byte per IK bone and 8 bytes
/// per outside parent), a `u32` count `n`, `n` further outside-parent
/// records (18 bytes, one flag byte per IK bone and 8 bytes per outside
/// parent each), the current state of every bone (31 bytes each), morph
/// (4 bytes each), IK bone (1 byte each) and outside parent (16 bytes each),
/// and 7 bytes of settings. The reader reads exactly these bytes, whatever
/// comes before or after them.
pub proof fn law_model_tail_layout(
    prefix: Seq<u8>,
    init: Seq<u8>,
    n: u32,
    ops: Seq<u8>,
    bones_now: Seq<u8>,
    morphs_now: Seq<u8>,
    iks_now: Seq<u8>,
    ops_now: Seq<u8>,
    settings: Seq<u8>,
    rest: Seq<u8>,
    bone_count: nat,
    morph_count: nat,
    ik_count: nat,
    op_count: nat,
)
    requires
        init.len() == 14 + ik_count + 8 * op_count,
        ops.len() == n * (18 + ik_count + 8 * op_count),
        bones_now.len() == 31 * bone_count,
        morphs_now.len() == 4 * morph_count,
        iks_now.len() == ik_count,
        ops_now.len() == 16 * op_count,
        settings.len() == 7,
    ensures
        spec_read_model_tail(
            prefix + init + u32_le_bytes(n) + ops + bones_now + morphs_now + iks_now + ops_now + settings + rest,
            prefix.len() as int,
            bone_count,
            morph_count,
            ik_count,
            op_count,
        ) == Ok::<((), int), ReadError>(
            (
                (),
                (prefix.len() + init.len() + 4 + ops.len() + bones_now.len() + morphs_now.len() + iks_now.len()
                    + ops_now.len() + settings.len()) as int,
            ),
        ),
{
    let data = prefix + init + u32_le_bytes(n) + ops + bones_now + morphs_now + iks_now + ops_now + settings
        + rest;
    lemma_u32_le_roundtrip(n);
    let c = (prefix.len() + init.len()) as int;
    assert(data.subrange(c, c + 4) =~= u32_le_bytes(n));
    assert(op_frame_size(ik_count, op_count, true) == init.len());
    assert(n as nat * op_frame_size(ik_count, op_count, false) == ops.len());
    assert(bone_count * 31 == bones_now.len()) by (nonlinear_arith)
        requires
            bones_now.len() == 31 * bone_count,
    ;
    assert(morph_count * 4 == morphs_now.len()) by (nonlinear_arith)
        requires
            morphs_now.len() == 4 * morph_count,
    ;
    assert(op_count * 16 == ops_now.len()) by (nonlinear_arith)
        requires
            ops_now.len() == 16 * op_count,
    ;
}


proof fn lemma_u32_at(data: Seq<u8>, q: int, n: u32)
    requires
        0 <= q,
        q + 4 <= data.len(),
        data.subrange(q, q + 4) == u32_le_bytes(n),
    ensures
        spec_u32_le(data.subrange(q, q + 4)) == n,
{
    lemma_u32_le_roundtrip(n);
}

proof fn lemma_words_at(data: Seq<u8>, q: int, ws: Seq<u32>)
    requires
        0 <= q,
        q + 4 * ws.len() <= data.len(),
        data.subrange(q, q + 4 * ws.len()) == words_bytes(ws),
    ensures
        le_words(data, q, ws.len()) == ws,
{
    lemma_words_bytes_len(ws);
    let n = ws.len();
    let short = data.take(q) + words_bytes(ws);
    law_words_write_read(data.take(q), ws);
    assert(short =~= data.take(q + 4 * n));
    assert(le_words(data, q, n) =~= le_words(short, q, n)) by {
        assert forall|j: int| 0 <= j < n implies #[trigger] le_words(data, q, n)[j] == le_words(short, q, n)[j] by {
            assert(data.subrange(q + 4 * j, q + 4 * j + 4) =~= short.subrange(q + 4 * j, q + 4 * j + 4));
        }
    }
}

/// A bone keyframe record is laid out as: its data index as a `u32` (only
/// once every bone has its first record; before that the index is the
/// number of records stored), then the frame, previous index and next
/// index as `u32`s, 16 interpolation bytes (four per axis and four for
/// rotation), the position as three and the rotation as four binary32
/// values, and two flag bytes. Reading it stores exactly these values under
/// the data index and ends just after the record.
#[verifier::rlimit(40)]
pub proof fn law_bone_record_layout(
    prefix: Seq<u8>,
    frames: Map<u32, SpecLinkedBoneFrame>,
    names_len: nat,
    index: u32,
    frame: u32,
    pre: u32,
    next: u32,
    interp: Seq<u8>,
    trans: Seq<u32>,
    rot: Seq<u32>,
    flags: Seq<u8>,
    rest: Seq<u8>,
)
    requires
        names_len <= u32::MAX,
        frames.len() < names_len ==> index == frames.len(),
        interp.len() == 16,
        trans.len() == 3,
        rot.len() == 4,
        flags.len() == 2,
    ensures
        ({
            let head = if frames.len() < names_len {
                Seq::<u8>::empty()
            } else {
                u32_le_bytes(index)
            };
            spec_read_bone_frame(
                prefix + head + u32_le_bytes(frame) + u32_le_bytes(pre) + u32_le_bytes(next) + interp
                    + words_bytes(trans) + words_bytes(rot) + flags + rest,
                prefix.len() as int,
                frames,
                names_len,
            ) == Ok::<(Map<u32, SpecLinkedBoneFrame>, int), ReadError>(
                (
                    frames.insert(
                        index,
                        SpecLinkedBoneFrame {
                            next,
                            frame,
                            trans,
                            rot,
                            txc: interp.subrange(0, 4),
                            tyc: interp.subrange(4, 8),
                            tzc: interp.subrange(8, 12),
                            rc: interp.subrange(12, 16),
                        },
                    ),
                    (prefix.len() + head.len() + 58) as int,
                ),
            )
        }),
{
    let head = if frames.len() < names_len {
        Seq::<u8>::empty()
    } else {
        u32_le_bytes(index)
    };
    lemma_u32_le_roundtrip(index);
    lemma_u32_le_roundtrip(frame);
    lemma_u32_le_roundtrip(pre);
    lemma_u32_le_roundtrip(next);
    lemma_words_bytes_len(trans);
    lemma_words_bytes_len(rot);
    let data = prefix + head + u32_le_bytes(frame) + u32_le_bytes(pre) + u32_le_bytes(next) + interp + words_bytes(
        trans,
    ) + words_bytes(rot) + flags + rest;
    let b = prefix.len() as int;
    let p = b + head.len();
    if frames.len() >= names_len {
        assert(data.subrange(b, b + 4) =~= u32_le_bytes(index));
        lemma_u32_at(data, b, index);
    }
    assert(data.subrange(p, p + 4) =~= u32_le_bytes(frame));
    lemma_u32_at(data, p, frame);
    assert(data.subrange(p + 8, p + 12) =~= u32_le_bytes(next));
    lemma_u32_at(data, p + 8, next);
    assert(data.subrange(p + 12, p + 16) =~= interp.subrange(0, 4));
    assert(data.subrange(p + 16, p + 20) =~= interp.subrange(4, 8));
    assert(data.subrange(p + 20, p + 24) =~= interp.subrange(8, 12));
    assert(data.subrange(p + 24, p + 28) =~= interp.subrange(12, 16));
    assert(data.subrange(p + 28, p + 40) =~= words_bytes(trans));
    lemma_words_at(data, p + 28, trans);
    assert(data.subrange(p + 40, p + 56) =~= words_bytes(rot));
    lemma_words_at(data, p + 40, rot);
}

/// A morph keyframe record is laid out as: its data index as a `u32` (only
/// once every morph has its first record; before that the index is the
/// number of records stored), then the frame, previous index, next index
/// and weight as `u32`s, and a flag byte. Reading it stores exactly these
/// values under the data index and ends just after the record.
#[verifier::rlimit(40)]
pub proof fn law_morph_record_layout(
    prefix: Seq<u8>,
    frames: Map<u32, LinkedMorphFrame>,
    names_len: nat,
    index: u32,
    frame: u32,
    pre: u32,
    next: u32,
    weight: u32,
    flag: u8,
    rest: Seq<u8>,
)
    requires
        names_len <= u32::MAX,
        frames.len() < names_len ==> index == frames.len(),
    ensures
        ({
            let head = if frames.len() < names_len {
                Seq::<u8>::empty()
            } else {
                u32_le_bytes(index)
            };
            spec_read_morph_frame(
                prefix + head + u32_le_bytes(frame) + u32_le_bytes(pre) + u32_le_bytes(next) + u32_le_bytes(weight)
                    + seq![flag] + rest,
                prefix.len() as int,
                frames,
                names_len,
            ) == Ok::<(Map<u32, LinkedMorphFrame>, int), ReadError>(
                (frames.insert(index, LinkedMorphFrame { next, frame, weight }), (prefix.len() + head.len() + 17) as int),
            )
        }),
{
    let head = if frames.len() < names_len {
        Seq::<u8>::empty()
    } else {
        u32_le_bytes(index)
    };
    lemma_u32_le_roundtrip(index);
    lemma_u32_le_roundtrip(frame);
    lemma_u32_le_roundtrip(pre);
    lemma_u32_le_roundtrip(next);
    lemma_u32_le_roundtrip(weight);
    let data = prefix + head + u32_le_bytes(frame) + u32_le_bytes(pre) + u32_le_bytes(next) + u32_le_bytes(weight)
        + seq![flag] + rest;
    let b = prefix.len() as int;
    let p = b + head.len();
    if frames.len() >= names_len {
        assert(data.subrange(b, b + 4) =~= u32_le_bytes(index));
        lemma_u32_at(data, b, index);
    }
    assert(data.subrange(p, p + 4) =~= u32_le_bytes(frame));
    lemma_u32_at(data, p, frame);
    assert(data.subrange(p + 8, p + 12) =~= u32_le_bytes(next));
    lemma_u32_at(data, p + 8, next);
    assert(data.subrange(p + 12, p + 16) =~= u32_le_bytes(weight));
    lemma_u32_at(data, p + 12, weight);
}


/// The panel state of a model is laid out as 22 bytes, a count byte `c`,
/// `c` bytes, then 8 bytes; the reader reads past exactly these bytes,
/// whatever comes before or after them.
pub proof fn law_model_panel_layout(prefix: Seq<u8>, head: Seq<u8>, opened: Seq<u8>, tail: Seq<u8>, rest: Seq<u8>)
    requires
        head.len() == 22,
        opened.len() < 256,
        tail.len() == 8,
    ensures
        spec_read_model_panel(
            prefix + head + seq![opened.len() as u8] + opened + tail + rest,
            prefix.len() as int,
        ) == Ok::<((), int), ReadError>(((), (prefix.len() + 31 + opened.len()) as int)),
{
    let data = prefix + head + seq![opened.len() as u8] + opened + tail + rest;
    assert(data[prefix.len() as int + 22] == opened.len() as u8);
}

/// The start of a model is laid out as its number byte, its name and
/// English name (each a length byte and that many bytes), a 256-byte file
/// path and a layout byte; the reader gives the name's bytes decoded as
/// Windows-31J and ends just after the layout byte, whatever comes before
/// or after.
pub proof fn law_model_names_layout(
    prefix: Seq<u8>,
    number: u8,
    name: Seq<u8>,
    name_en: Seq<u8>,
    path: Seq<u8>,
    rows: u8,
    rest: Seq<u8>,
)
    requires
        name.len() < 256,
        name_en.len() < 256,
        path.len() == 256,
    ensures
        spec_read_model_names(
            prefix + seq![number] + seq![name.len() as u8] + name + seq![name_en.len() as u8] + name_en + path
                + seq![rows] + rest,
            prefix.len() as int,
        ) == Ok::<(Seq<char>, int), ReadError>(
            (windows_31j_decode(name), (prefix.len() + name.len() + name_en.len() + 260) as int),
        ),
{
    let data = prefix + seq![number] + seq![name.len() as u8] + name + seq![name_en.len() as u8] + name_en + path
        + seq![rows] + rest;
    let p1 = prefix.len() as int + 1;
    assert(data[p1] == name.len() as u8);
    assert(data.subrange(p1 + 1, p1 + 1 + name.len()) + zeros(0) =~= name);
    let p2 = p1 + 1 + name.len();
    assert(data[p2] == name_en.len() as u8);
}

} // verus!
