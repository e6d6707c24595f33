use pmm2vmd::common::ReadError;
use pmm2vmd::motion::Motion;
use pmm2vmd::vpd_reader::{parse_vpd, try_parse_vpd, vpd_bone_keyframe};

const POSE: &str = "Vocaloid Pose Data file\r\n\r\nmiku.osm;\t\t// model\r\n2;\t\t// bones\r\n\r\nBone0{center\r\n  1.000000,2.500000,-3.000000;\t\t// trans x,y,z\r\n  0.000000,0.000000,0.000000,1.000000;\t\t// quaternion x,y,z,w\r\n}\r\n\r\nBone1{左腕\r\n  0.0,0.0,0.0;\r\n  0.1,0.2,0.3,0.9;\r\n}\r\n";

fn sjis(s: &str) -> Vec<u8> {
    let mut out = Vec::new();
    for c in s.chars() {
        if c == '左' {
            out.extend_from_slice(&[0x8d, 0xb6]);
        } else if c == '腕' {
            out.extend_from_slice(&[0x98, 0x72]);
        } else {
            out.push(c as u8);
        }
    }
    out
}

#[test]
fn parses_a_pose_file() {
    let pose = parse_vpd(&sjis(POSE));
    assert_eq!(pose.model_name, "miku");
    assert_eq!(pose.bones.len(), 2);
    assert_eq!(pose.bones[0].name, "center");
    assert_eq!(
        pose.bones[0].trans,
        Some(vec!["1.000000".to_string(), "2.500000".to_string(), "-3.000000".to_string()])
    );
    assert_eq!(
        pose.bones[0].rot,
        Some(vec![
            "0.000000".to_string(),
            "0.000000".to_string(),
            "0.000000".to_string(),
            "1.000000".to_string()
        ])
    );
    assert_eq!(pose.bones[1].name, "左腕");
    // the rotation is the sixth token: without comments it is not there
    assert_eq!(
        pose.bones[1].trans,
        Some(vec!["0.0".to_string(), "0.0".to_string(), "0.0".to_string()])
    );
    assert_eq!(pose.bones[1].rot, None);
}

#[test]
fn pose_file_edge_cases() {
    // only the header: no model name, no bones
    let pose = parse_vpd(b"  Vocaloid Pose Data file \r\n");
    assert_eq!(pose.model_name, "");
    assert!(pose.bones.is_empty());
    // a bone section without a second token has no position
    let pose = parse_vpd(b"Vocaloid Pose Data file\r\n\r\nm\r\n\r\nBone0{x");
    assert_eq!(pose.model_name, "m");
    assert_eq!(pose.bones[0].name, "x");
    assert_eq!(pose.bones[0].trans, None);
    assert_eq!(pose.bones[0].rot, None);
    // a name token without '{' is malformed
    assert_eq!(
        try_parse_vpd(b"Vocaloid Pose Data file\r\n\r\nm\r\n\r\nBone0 1,2,3;").err(),
        Some(ReadError::Malformed)
    );
    assert_eq!(try_parse_vpd(b"Vocaloid Motion Data").err(), Some(ReadError::InvalidHeader));
    assert_eq!(try_parse_vpd(b"").err(), Some(ReadError::InvalidHeader));
}

#[test]
fn pose_keyframes_start_at_frame_zero() {
    let k = vpd_bone_keyframe("center".to_string(), [1, 2, 3], [4, 5, 6, 7]);
    assert_eq!(k.frame, 0);
    assert_eq!(k.trans, [1, 2, 3]);
    assert_eq!(k.rot, [4, 5, 6, 7]);
    assert_eq!(k.txc, [0; 4]);
    assert_eq!(k.rc, [0; 4]);
    let m = Motion::new();
    assert!(m.bone_keyframes.is_empty() && m.model_name.is_empty());
}
