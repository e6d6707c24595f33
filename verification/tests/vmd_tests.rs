use pmm2vmd::common::ByteCursor;
use pmm2vmd::motion::{BoneKeyframe, LightKeyframe, MorphKeyframe, Motion, ShadowKeyframe};
use pmm2vmd::text::read_string;
use pmm2vmd::vmd_writer::{
    write_bezier_control_point_pair4, write_bone_keyframe, write_item_string_cache,
    write_light_keyframe, write_morph_keyframe, write_shadow_keyframe, write_string, VERSION_2,
};

fn bone(name: &str) -> BoneKeyframe {
    BoneKeyframe {
        name: name.to_string(),
        frame: 0x0102,
        trans: [1, 2, 3],
        rot: [4, 5, 6, 7],
        txc: [0, 64, 127, 200],
        tyc: [1, 1, 1, 1],
        tzc: [2, 2, 2, 2],
        rc: [255, 0, 128, 127],
    }
}

#[test]
fn text_fields_are_truncated_and_zero_filled() {
    let mut f = Vec::new();
    write_string(&mut f, "abc".to_string(), 5);
    assert_eq!(f, b"abc\0\0");
    let mut f = Vec::new();
    write_string(&mut f, "abc".to_string(), 3);
    assert_eq!(f, b"ab\0");
    let mut f = Vec::new();
    write_string(&mut f, "abc".to_string(), 0);
    assert!(f.is_empty());
    // two-byte characters that do not fit are left out whole
    let mut f = Vec::new();
    write_string(&mut f, "センター".to_string(), 6);
    assert_eq!(f, vec![0x83, 0x5a, 0x83, 0x93, 0, 0]);
    // a character without a Windows-31J code writes nothing
    let mut f = Vec::new();
    write_string(&mut f, "a\u{1F600}b".to_string(), 4);
    assert_eq!(f, b"ab\0\0");
}

#[test]
fn written_text_reads_back() {
    let mut f = Vec::new();
    write_string(&mut f, "センター先".to_string(), 15);
    let mut c = ByteCursor::new(f);
    assert_eq!(read_string(&mut c, 15), "センター先".to_string());
    let mut f = Vec::new();
    write_string(&mut f, "abcdefghijklmnopq".to_string(), 15);
    let mut c = ByteCursor::new(f);
    assert_eq!(read_string(&mut c, 15), "abcdefghijklmn".to_string());
}

#[test]
fn cached_names_are_written_as_cached() {
    let cache = vec![
        ("right".to_string(), vec![1, 2, 3]),
        ("left".to_string(), vec![0x8d, 0xb6]),
    ];
    let mut f = Vec::new();
    write_item_string_cache(&mut f, "left".to_string(), &cache);
    let mut expected = vec![0x8d, 0xb6];
    expected.resize(15, 0);
    assert_eq!(f, expected);
    let mut f = Vec::new();
    write_item_string_cache(&mut f, "right".to_string(), &cache);
    let mut expected = vec![1, 2, 3];
    expected.resize(15, 0);
    assert_eq!(f, expected);
    let mut f = Vec::new();
    write_item_string_cache(&mut f, "up".to_string(), &cache);
    let mut expected = b"up".to_vec();
    expected.resize(15, 0);
    assert_eq!(f, expected);
}

#[test]
fn control_points_are_clamped_and_repeated() {
    let mut f = Vec::new();
    write_bezier_control_point_pair4(&mut f, [0, 64, 127, 200]);
    assert_eq!(f, vec![0, 0, 0, 0, 64, 64, 64, 64, 127, 127, 127, 127, 127, 127, 127, 127]);
}

#[test]
fn keyframe_records_have_their_sizes() {
    let mut f = Vec::new();
    write_bone_keyframe(&mut f, &bone("center"));
    assert_eq!(f.len(), 111);
    assert_eq!(&f[..7], b"center\0");
    assert_eq!(&f[15..19], &[2, 1, 0, 0]);
    assert_eq!(&f[19..23], &[1, 0, 0, 0]);
    assert_eq!(&f[47..51], &[0, 0, 0, 0]);
    assert_eq!(&f[51..55], &[64, 64, 64, 64]);
    assert_eq!(&f[59..63], &[127, 127, 127, 127]);
    assert_eq!(&f[95..99], &[127, 127, 127, 127]);

    let mut f = Vec::new();
    let morph = MorphKeyframe { name: "smile".to_string(), frame: 3, weight: 0x3f80_0000 };
    write_morph_keyframe(&mut f, &morph);
    assert_eq!(f.len(), 23);
    assert_eq!(&f[15..], &[3, 0, 0, 0, 0, 0, 0x80, 0x3f]);

    let mut f = Vec::new();
    let light = LightKeyframe { frame: 1, color: [2, 3, 4], direction: [5, 6, 7] };
    write_light_keyframe(&mut f, &light);
    assert_eq!(f.len(), 28);
    assert_eq!(&f[24..], &[7, 0, 0, 0]);

    let mut f = Vec::new();
    let shadow = ShadowKeyframe { frame: 1, mode: 2, dist: 3 };
    write_shadow_keyframe(&mut f, &shadow);
    assert_eq!(f, vec![1, 0, 0, 0, 2, 3, 0, 0, 0]);
}

#[test]
fn writes_a_motion_file() {
    let mut m = Motion::new();
    m.model_name = "miku".to_string();
    m.bone_keyframes.push(bone("center"));
    m.bone_keyframes.push(bone("arm"));
    m.morph_keyframes.push(MorphKeyframe { name: "a".to_string(), frame: 0, weight: 0 });
    m.light_keyframes.push(LightKeyframe { frame: 0, color: [0; 3], direction: [0; 3] });
    let mut f = Vec::new();
    m.write_vmd(&mut f);
    assert_eq!(f.len(), 30 + 20 + 4 + 2 * 111 + 4 + 23 + 4 + 4 + 28 + 4);
    let mut head = VERSION_2.as_bytes().to_vec();
    head.resize(30, 0);
    assert_eq!(&f[..30], &head[..]);
    assert_eq!(&f[30..35], b"miku\0");
    assert_eq!(&f[50..54], &[2, 0, 0, 0]);
    assert_eq!(&f[54..60], b"center");
    let morphs = 54 + 222;
    assert_eq!(&f[morphs..morphs + 4], &[1, 0, 0, 0]);
    let cameras = morphs + 4 + 23;
    assert_eq!(&f[cameras..cameras + 4], &[0, 0, 0, 0]);
    assert_eq!(&f[cameras + 4..cameras + 8], &[1, 0, 0, 0]);
    assert_eq!(&f[f.len() - 4..], &[0, 0, 0, 0]);
}

#[test]
fn an_empty_motion_file() {
    let mut f = Vec::new();
    Motion::new().write_vmd(&mut f);
    assert_eq!(f.len(), 30 + 20 + 5 * 4);
    assert!(f[30..].iter().all(|&b| b == 0));
}
