use vstd::prelude::*;

use crate::common::views;

verus! {

/// A motion: the keyframes of one model (or of the camera, light and shadow).
///
/// Every binary32 value (position, rotation, weight, distance, colour) is
/// held as its IEEE-754 bit pattern. Every interpolation control point is
/// held as its coordinate times 127, as a project file stores it.
#[derive(Debug, Clone, PartialEq)]
pub struct Motion {
    pub model_name: String,
    pub bone_keyframes: Vec<BoneKeyframe>,
    pub morph_keyframes: Vec<MorphKeyframe>,
    pub camera_keyframes: Vec<CameraKeyframe>,
    pub light_keyframes: Vec<LightKeyframe>,
    pub shadow_keyframes: Vec<ShadowKeyframe>,
}

/// A keyframe of one bone.
#[derive(Debug, Clone, PartialEq)]
pub struct BoneKeyframe {
    pub name: String,
    pub frame: u32,
    /// Position x, y, z (binary32 bit patterns).
    pub trans: [u32; 3],
    /// Rotation quaternion x, y, z, w (binary32 bit patterns).
    pub rot: [u32; 4],
    /// Interpolation control points x1, y1, x2, y2 for the x position, times 127.
    pub txc: [u8; 4],
    /// The same for the y position.
    pub tyc: [u8; 4],
    /// The same for the z position.
    pub tzc: [u8; 4],
    /// The same for the rotation.
    pub rc: [u8; 4],
}

/// A keyframe of one morph.
#[derive(Debug, Clone, PartialEq)]
pub struct MorphKeyframe {
    pub name: String,
    pub frame: u32,
    /// The morph weight (a binary32 bit pattern).
    pub weight: u32,
}

/// A keyframe of the camera.
#[derive(Debug, Clone, Copy, PartialEq)]
pub struct CameraKeyframe {
    pub frame: u32,
    pub dist: u32,
    pub trans: [u32; 3],
    pub rot: [u32; 3],
    pub txc: [u8; 4],
    pub tyc: [u8; 4],
    pub tzc: [u8; 4],
    pub rc: [u8; 4],
    pub dc: [u8; 4],
    pub vc: [u8; 4],
    pub fov: u32,
    pub perspective: bool,
}

/// A keyframe of the light.
#[derive(Debug, Clone, Copy, PartialEq)]
pub struct LightKeyframe {
    pub frame: u32,
    /// Colour r, g, b (binary32 bit patterns).
    pub color: [u32; 3],
    /// Direction x, y, z (binary32 bit patterns).
    pub direction: [u32; 3],
}

/// A keyframe of the self shadow.
#[derive(Debug, Clone, Copy, PartialEq)]
pub struct ShadowKeyframe {
    pub frame: u32,
    pub mode: u8,
    /// Shadow distance (a binary32 bit pattern).
    pub dist: u32,
}

/// The value of a [`BoneKeyframe`].
pub struct SpecBoneKeyframe {
    pub name: Seq<char>,
    pub frame: u32,
    pub trans: Seq<u32>,
    pub rot: Seq<u32>,
    pub txc: Seq<u8>,
    pub tyc: Seq<u8>,
    pub tzc: Seq<u8>,
    pub rc: Seq<u8>,
}

/// The value of a [`MorphKeyframe`].
pub struct SpecMorphKeyframe {
    pub name: Seq<char>,
    pub frame: u32,
    pub weight: u32,
}

/// The value of a [`Motion`].
pub struct SpecMotion {
    pub model_name: Seq<char>,
    pub bone_keyframes: Seq<SpecBoneKeyframe>,
    pub morph_keyframes: Seq<SpecMorphKeyframe>,
    pub camera_keyframes: Seq<CameraKeyframe>,
    pub light_keyframes: Seq<LightKeyframe>,
    pub shadow_keyframes: Seq<ShadowKeyframe>,
}

impl View for BoneKeyframe {
    type V = SpecBoneKeyframe;

    open spec fn view(&self) -> SpecBoneKeyframe {
        SpecBoneKeyframe {
            name: self.name@,
            frame: self.frame,
            trans: self.trans@,
            rot: self.rot@,
            txc: self.txc@,
            tyc: self.tyc@,
            tzc: self.tzc@,
            rc: self.rc@,
        }
    }
}

impl View for MorphKeyframe {
    type V = SpecMorphKeyframe;

    open spec fn view(&self) -> SpecMorphKeyframe {
        SpecMorphKeyframe { name: self.name@, frame: self.frame, weight: self.weight }
    }
}

impl View for CameraKeyframe {
    type V = CameraKeyframe;

    open spec fn view(&self) -> CameraKeyframe {
        *self
    }
}

impl View for LightKeyframe {
    type V = LightKeyframe;

    open spec fn view(&self) -> LightKeyframe {
        *self
    }
}

impl View for ShadowKeyframe {
    type V = ShadowKeyframe;

    open spec fn view(&self) -> ShadowKeyframe {
        *self
    }
}

impl View for Motion {
    type V = SpecMotion;

    open spec fn view(&self) -> SpecMotion {
        SpecMotion {
            model_name: self.model_name@,
            bone_keyframes: views(self.bone_keyframes@),
            morph_keyframes: views(self.morph_keyframes@),
            camera_keyframes: views(self.camera_keyframes@),
            light_keyframes: views(self.light_keyframes@),
            shadow_keyframes: views(self.shadow_keyframes@),
        }
    }
}

impl Motion {
    /// A motion with no model name and no keyframes.
    pub fn new() -> (m: Motion)
        ensures
            m@.model_name == Seq::<char>::empty(),
            m@.bone_keyframes == Seq::<SpecBoneKeyframe>::empty(),
            m@.morph_keyframes == Seq::<SpecMorphKeyframe>::empty(),
            m@.camera_keyframes == Seq::<CameraKeyframe>::empty(),
            m@.light_keyframes == Seq::<LightKeyframe>::empty(),
            m@.shadow_keyframes == Seq::<ShadowKeyframe>::empty(),
    {
        let m = Motion {
            model_name: String::new(),
            bone_keyframes: Vec::new(),
            morph_keyframes: Vec::new(),
            camera_keyframes: Vec::new(),
            light_keyframes: Vec::new(),
            shadow_keyframes: Vec::new(),
        };
        assert(m@.bone_keyframes =~= Seq::<SpecBoneKeyframe>::empty());
        assert(m@.morph_keyframes =~= Seq::<SpecMorphKeyframe>::empty());
        assert(m@.camera_keyframes =~= Seq::<CameraKeyframe>::empty());
        assert(m@.light_keyframes =~= Seq::<LightKeyframe>::empty());
        assert(m@.shadow_keyframes =~= Seq::<ShadowKeyframe>::empty());
        m
    }
}

} // verus!
