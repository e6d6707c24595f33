use std::collections::HashMap;

use pmm2vmd::common::{ByteCursor, ReadError};
use pmm2vmd::pmm::{
    read_bone_current_data, read_bone_frame, read_header, read_model, read_morph_frame,
    read_op_current_data, read_op_frame, read_pmm, read_v_string, try_read_bone_frame, try_read_header,
    try_read_model,
    try_read_op_current_data, try_read_op_frame, try_read_pmm, try_read_v_string, LinkedBoneFrame,
    LinkedMorphFrame,
};

fn u32le(b: &mut Vec<u8>, v: u32) {
    b.extend_from_slice(&v.to_le_bytes());
}

fn vstr(b: &mut Vec<u8>, s: &[u8]) {
    b.push(s.len() as u8);
    b.extend_from_slice(s);
}

fn header() -> Vec<u8> {
    let mut b = b"Polygon Movie maker 0002".to_vec();
    b.resize(30, 0);
    for v in [1920u32, 1080, 640, 0x4120_0000] {
        u32le(&mut b, v);
    }
    b.extend_from_slice(&[1, 0, 0, 0, 1, 1, 0, 0]);
    b
}

/// A bone keyframe record; `index` is written when given.
fn bone_record(b: &mut Vec<u8>, index: Option<u32>, frame: u32, next: u32, interp: u8) {
    if let Some(i) = index {
        u32le(b, i);
    }
    u32le(b, frame);
    u32le(b, 0);
    u32le(b, next);
    for k in 0..16u8 {
        b.push(interp.wrapping_add(k));
    }
    for v in [frame, frame + 1, frame + 2] {
        u32le(b, v);
    }
    for v in [10, 11, 12, 13] {
        u32le(b, v + frame);
    }
    b.extend_from_slice(&[0, 1]);
}

fn morph_record(b: &mut Vec<u8>, index: Option<u32>, frame: u32, next: u32, weight: u32) {
    if let Some(i) = index {
        u32le(b, i);
    }
    u32le(b, frame);
    u32le(b, 0);
    u32le(b, next);
    u32le(b, weight);
    b.push(0);
}

/// A model with one bone ("center", keyframes at frames 0 and 10) and one
/// morph ("smile", one keyframe); `second_next` is the next index of the
/// second bone keyframe.
fn model(second_next: u32) -> Vec<u8> {
    let mut b = Vec::new();
    b.push(0);
    vstr(&mut b, b"miku");
    vstr(&mut b, b"miku_en");
    b.extend_from_slice(&[0u8; 256]);
    b.push(3);
    u32le(&mut b, 1);
    vstr(&mut b, b"center");
    u32le(&mut b, 1);
    vstr(&mut b, b"smile");
    u32le(&mut b, 0);
    u32le(&mut b, 0);
    // panel
    b.push(0);
    b.push(1);
    u32le(&mut b, 0);
    for _ in 0..4 {
        u32le(&mut b, 0);
    }
    b.push(2);
    b.extend_from_slice(&[1, 1]);
    u32le(&mut b, 0);
    u32le(&mut b, 100);
    // bone keyframes
    bone_record(&mut b, None, 0, 5, 0);
    u32le(&mut b, 1);
    bone_record(&mut b, Some(5), 10, second_next, 200);
    // morph keyframes
    morph_record(&mut b, None, 3, 0, 0x3f80_0000);
    u32le(&mut b, 0);
    // tail: initial op frame, no more op frames, current data, settings
    b.extend_from_slice(&[0u8; 14]);
    u32le(&mut b, 0);
    b.extend_from_slice(&[0u8; 31]);
    u32le(&mut b, 0);
    b.extend_from_slice(&[0u8; 7]);
    b
}

#[test]
fn reads_length_prefixed_strings() {
    let mut c = ByteCursor::new(vec![3, b'a', b'b', b'c', 9]);
    assert_eq!(read_v_string(&mut c), "abc".to_string());
    assert_eq!(c.position(), 4);
    // a string cut short by the end of the file is zero-filled
    let mut c = ByteCursor::new(vec![4, b'a', b'b']);
    assert_eq!(read_v_string(&mut c), "ab\0\0".to_string());
    assert_eq!(c.position(), 3);
    let mut c = ByteCursor::new(vec![]);
    assert_eq!(try_read_v_string(&mut c), Err(ReadError::UnexpectedEof));
}

#[test]
fn checks_the_header() {
    let mut c = ByteCursor::new(header());
    read_header(&mut c);
    assert_eq!(c.position(), 54);

    let mut bad = header();
    bad[0] = b'p';
    assert_eq!(try_read_header(&mut ByteCursor::new(bad)), Err(ReadError::InvalidHeader));

    let mut short = header();
    short.truncate(40);
    assert_eq!(try_read_header(&mut ByteCursor::new(short)), Err(ReadError::UnexpectedEof));
    assert_eq!(
        try_read_header(&mut ByteCursor::new(b"Polygon".to_vec())),
        Err(ReadError::UnexpectedEof)
    );
}

#[test]
fn bone_frames_take_sequential_then_explicit_indexes() {
    let names = vec!["center".to_string()];
    let mut data = Vec::new();
    bone_record(&mut data, None, 0, 7, 1);
    bone_record(&mut data, Some(7), 30, 0, 200);
    let mut c = ByteCursor::new(data);
    let mut frames: HashMap<u32, LinkedBoneFrame> = HashMap::new();
    read_bone_frame(&mut c, &mut frames, &names);
    assert_eq!(c.position(), 58);
    read_bone_frame(&mut c, &mut frames, &names);
    assert_eq!(c.position(), 120);
    assert_eq!(frames.len(), 2);
    let first = frames[&0];
    assert_eq!(first.next, 7);
    assert_eq!(first.frame, 0);
    assert_eq!(first.txc, [1, 2, 3, 4]);
    assert_eq!(first.rc, [13, 14, 15, 16]);
    assert_eq!(first.trans, [0, 1, 2]);
    assert_eq!(first.rot, [10, 11, 12, 13]);
    let second = frames[&7];
    assert_eq!(second.frame, 30);
    assert_eq!(second.txc, [200, 201, 202, 203]);
    let mut short = ByteCursor::new(vec![0u8; 57]);
    let mut empty: HashMap<u32, LinkedBoneFrame> = HashMap::new();
    assert_eq!(
        try_read_bone_frame(&mut short, &mut empty, &names),
        Err(ReadError::UnexpectedEof)
    );
    assert!(empty.is_empty());
}

#[test]
fn morph_frames_are_read() {
    let names = vec!["smile".to_string()];
    let mut data = Vec::new();
    morph_record(&mut data, None, 4, 2, 0x3f00_0000);
    morph_record(&mut data, Some(2), 8, 0, 0x3f80_0000);
    let mut c = ByteCursor::new(data);
    let mut frames: HashMap<u32, LinkedMorphFrame> = HashMap::new();
    read_morph_frame(&mut c, &mut frames, &names);
    read_morph_frame(&mut c, &mut frames, &names);
    assert_eq!(c.position(), 17 + 21);
    assert_eq!(frames[&0], LinkedMorphFrame { next: 2, frame: 4, weight: 0x3f00_0000 });
    assert_eq!(frames[&2], LinkedMorphFrame { next: 0, frame: 8, weight: 0x3f80_0000 });
}

#[test]
fn skipped_records_have_fixed_sizes() {
    let mut c = ByteCursor::new(vec![0u8; 100]);
    read_op_frame(&mut c, 2, 1, true);
    assert_eq!(c.position(), 14 + 2 + 8);
    read_op_frame(&mut c, 2, 1, false);
    assert_eq!(c.position(), 24 + 28);
    read_bone_current_data(&mut c);
    assert_eq!(c.position(), 52 + 31);
    read_op_current_data(&mut c);
    assert_eq!(c.position(), 83 + 16);
    assert_eq!(try_read_op_current_data(&mut c), Err(ReadError::UnexpectedEof));
    let mut c = ByteCursor::new(vec![0u8; 23]);
    assert_eq!(try_read_op_frame(&mut c, 2, 1, true), Err(ReadError::UnexpectedEof));
}

#[test]
fn reads_a_model_with_keyframe_chains() {
    let data = model(0);
    let len = data.len();
    let mut c = ByteCursor::new(data);
    let m = read_model(&mut c);
    assert_eq!(c.position(), len);
    assert_eq!(m.model_name, "miku");
    assert_eq!(m.bone_keyframes.len(), 2);
    assert_eq!(m.bone_keyframes[0].name, "center");
    assert_eq!(m.bone_keyframes[0].frame, 0);
    assert_eq!(m.bone_keyframes[1].name, "center");
    assert_eq!(m.bone_keyframes[1].frame, 10);
    assert_eq!(m.bone_keyframes[1].trans, [10, 11, 12]);
    assert_eq!(m.bone_keyframes[1].txc, [200, 201, 202, 203]);
    assert_eq!(m.morph_keyframes.len(), 1);
    assert_eq!(m.morph_keyframes[0].name, "smile");
    assert_eq!(m.morph_keyframes[0].frame, 3);
    assert_eq!(m.morph_keyframes[0].weight, 0x3f80_0000);
    assert!(m.camera_keyframes.is_empty());
    assert!(m.light_keyframes.is_empty());
    assert!(m.shadow_keyframes.is_empty());
}

#[test]
fn broken_chains_are_refused() {
    // the second keyframe points at an index that was never stored
    assert_eq!(
        try_read_model(&mut ByteCursor::new(model(9))),
        Err(ReadError::MissingKeyframe)
    );
    // the second keyframe points back at itself
    assert_eq!(
        try_read_model(&mut ByteCursor::new(model(5))),
        Err(ReadError::CyclicKeyframes)
    );
    let mut cut = model(0);
    cut.pop();
    assert_eq!(try_read_model(&mut ByteCursor::new(cut)), Err(ReadError::UnexpectedEof));
}

#[test]
fn reads_a_project_file() {
    let mut data = header();
    data.push(2);
    data.extend_from_slice(&model(0));
    data.extend_from_slice(&model(0));
    data.extend_from_slice(b"trailing data is ignored");
    let motions = read_pmm(data);
    assert_eq!(motions.len(), 2);
    assert_eq!(motions[0], motions[1]);
    assert_eq!(motions[0].bone_keyframes.len(), 2);

    let mut none = header();
    none.push(0);
    assert_eq!(read_pmm(none), Vec::<pmm2vmd::motion::Motion>::new());

    let mut bad = header();
    bad[5] = b'X';
    bad.push(0);
    assert_eq!(try_read_pmm(bad), Err(ReadError::InvalidHeader));
    assert_eq!(try_read_pmm(header()), Err(ReadError::UnexpectedEof));
}

#[test]
fn keyframes_carry_over_to_motion_files() {
    let m = read_model(&mut ByteCursor::new(model(0)));
    let mut vmd = Vec::new();
    m.write_vmd(&mut vmd);
    let mut second = Vec::new();
    bone_record(&mut second, None, 10, 0, 200);
    let at = 54 + 111;
    assert_eq!(&vmd[at..at + 7], b"center\0");
    assert_eq!(&vmd[at + 15..at + 19], &second[0..4]);
    assert_eq!(&vmd[at + 19..at + 47], &second[28..56]);
    assert_eq!(&vmd[at + 47..at + 63], &[127u8; 16][..]);
    // the first keyframe's control points 0..=15 are below 127 and kept
    let first = 54;
    let expected: Vec<u8> = (0..16u8).flat_map(|v| [v; 4]).collect();
    assert_eq!(&vmd[first + 47..first + 111], &expected[..]);
}

#[test]
fn bytes_read_past_do_not_change_the_model() {
    let original = model(0);
    let mut noisy = original.clone();
    noisy[0] = 9; // model number
    noisy[7] = b'X'; // English name
    noisy[20] = 0xff; // file path
    noisy[300] = 7; // panel state
    noisy[326] = 0xee; // frame-opened flags
    for i in 337..341 {
        noisy[i] = 0xaa; // previous index of the first bone keyframe
    }
    noisy[389] = 1; // flags of the first bone keyframe
    noisy[455] = 1; // flags of the second bone keyframe
    noisy[461] = 0x33; // previous index of the morph keyframe
    noisy[473] = 1; // flag of the morph keyframe
    noisy[478] = 0x55; // initial outside-parent record
    let mut a = ByteCursor::new(original.clone());
    let mut b = ByteCursor::new(noisy);
    assert_eq!(read_model(&mut a), read_model(&mut b));
    assert_eq!(a.position(), b.position());
    assert_eq!(a.position(), original.len());
}
