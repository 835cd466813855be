//! The sparse evidence behind a globally bundle-adjusted trajectory.

use vstd::prelude::*;

use crate::pose::PoseFrame;

verus! {

/// A camera of the sparse model. Parameters are binary64 patterns.
#[derive(Debug, Clone, PartialEq, Eq)]
pub struct ColmapCameraModel {
    pub camera_id: u32,
    pub model: String,
    pub width: usize,
    pub height: usize,
    pub parameters: Vec<u64>,
}

/// Where a frame saw a sparse point.
#[derive(Debug, Clone, Copy, PartialEq, Eq)]
pub struct TrackObservation {
    pub frame_index: usize,
    pub image_xy: [u64; 2],
}

/// A triangulated point and the frames that saw it.
#[derive(Debug, Clone, PartialEq, Eq)]
pub struct SparseTrack {
    pub point_id: u64,
    pub position: [u64; 3],
    pub reprojection_error_px: u64,
    pub observations: Vec<TrackObservation>,
}

/// The camera a frame was taken with.
#[derive(Debug, Clone, Copy, PartialEq, Eq)]
pub struct FrameCamera {
    pub frame_index: usize,
    pub camera_id: u32,
}

/// Cameras and tracks of a globally bundle-adjusted model.
#[derive(Debug, Clone, PartialEq, Eq)]
pub struct GlobalTrajectoryEvidence {
    pub frame_camera_ids: Vec<FrameCamera>,
    pub camera_models: Vec<ColmapCameraModel>,
    pub tracks: Vec<SparseTrack>,
}

/// The first registered pose of a frame, counted from `start`.
pub open spec fn pose_of(frames: Seq<PoseFrame>, frame_index: usize, start: int) -> Option<int>
    decreases frames.len() - start,
{
    if start >= frames.len() {
        None
    } else if frames[start].frame_index == frame_index && frames[start].registered {
        Some(start)
    } else {
        pose_of(frames, frame_index, start + 1)
    }
}

/// The camera of a frame, from place `start` on.
pub open spec fn camera_id_of(
    cameras: Seq<FrameCamera>,
    frame_index: usize,
    start: int,
) -> Option<u32>
    decreases cameras.len() - start,
{
    if start >= cameras.len() {
        None
    } else if cameras[start].frame_index == frame_index {
        Some(cameras[start].camera_id)
    } else {
        camera_id_of(cameras, frame_index, start + 1)
    }
}

/// The first model of a camera, from place `start` on.
pub open spec fn model_of(
    models: Seq<ColmapCameraModel>,
    camera_id: u32,
    start: int,
) -> Option<int>
    decreases models.len() - start,
{
    if start >= models.len() {
        None
    } else if models[start].camera_id == camera_id {
        Some(start)
    } else {
        model_of(models, camera_id, start + 1)
    }
}

/// Where the registered pose and the camera model of a frame stand. Both have
/// to be there.
pub open spec fn pose_and_camera_of(
    frames: Seq<PoseFrame>,
    evidence: GlobalTrajectoryEvidence,
    frame_index: usize,
) -> Option<(int, int)> {
    match pose_of(frames, frame_index, 0) {
        None => None,
        Some(pose) => match camera_id_of(evidence.frame_camera_ids@, frame_index, 0) {
            None => None,
            Some(camera_id) => match model_of(evidence.camera_models@, camera_id, 0) {
                None => None,
                Some(model) => Some((pose, model)),
            },
        },
    }
}

/// The places of an optional pair, as integers.
pub open spec fn places(found: Option<(usize, usize)>) -> Option<(int, int)> {
    match found {
        None => None,
        Some((pose, model)) => Some((pose as int, model as int)),
    }
}

fn find_pose(frames: &Vec<PoseFrame>, frame_index: usize) -> (found: Option<usize>)
    ensures
        match found {
            None => pose_of(frames@, frame_index, 0) is None,
            Some(i) => pose_of(frames@, frame_index, 0) == Some(i as int) && i < frames@.len(),
        },
{
    for i in 0..frames.len()
        invariant
            pose_of(frames@, frame_index, 0) == pose_of(frames@, frame_index, i as int),
    {
        if frames[i].frame_index == frame_index && frames[i].registered {
            return Some(i);
        }
    }
    None
}

fn find_camera_id(cameras: &Vec<FrameCamera>, frame_index: usize) -> (found: Option<u32>)
    ensures
        found == camera_id_of(cameras@, frame_index, 0),
{
    for i in 0..cameras.len()
        invariant
            camera_id_of(cameras@, frame_index, 0) == camera_id_of(
                cameras@,
                frame_index,
                i as int,
            ),
    {
        if cameras[i].frame_index == frame_index {
            return Some(cameras[i].camera_id);
        }
    }
    None
}

fn find_model(models: &Vec<ColmapCameraModel>, camera_id: u32) -> (found: Option<usize>)
    ensures
        match found {
            None => model_of(models@, camera_id, 0) is None,
            Some(i) => model_of(models@, camera_id, 0) == Some(i as int) && i < models@.len(),
        },
{
    for i in 0..models.len()
        invariant
            model_of(models@, camera_id, 0) == model_of(models@, camera_id, i as int),
    {
        if models[i].camera_id == camera_id {
            return Some(i);
        }
    }
    None
}

/// Finds the registered pose and the camera model of a frame.
pub fn global_pose_and_camera(
    frame_index: usize,
    frames: &Vec<PoseFrame>,
    evidence: &GlobalTrajectoryEvidence,
) -> (found: Option<(usize, usize)>)
    ensures
        places(found) == pose_and_camera_of(frames@, *evidence, frame_index),
        found matches Some((pose, model)) ==> pose < frames@.len() && model
            < evidence.camera_models@.len(),
{
    match find_pose(frames, frame_index) {
        None => None,
        Some(pose) => match find_camera_id(&evidence.frame_camera_ids, frame_index) {
            None => None,
            Some(camera_id) => match find_model(&evidence.camera_models, camera_id) {
                None => None,
                Some(model) => Some((pose, model)),
            },
        },
    }
}

/// A registered pose with its camera model, by their places.
#[derive(Debug, Clone, Copy, PartialEq, Eq, Structural)]
pub struct PosedView {
    pub pose: usize,
    pub model: usize,
}

/// The registered ones of the first `count` poses whose camera is known.
pub open spec fn posed_views_of(
    frames: Seq<PoseFrame>,
    evidence: GlobalTrajectoryEvidence,
    count: int,
) -> Seq<PosedView>
    decreases count,
{
    if count <= 0 {
        Seq::empty()
    } else {
        let frame = frames[count - 1];
        let rest = posed_views_of(frames, evidence, count - 1);
        if !frame.registered {
            rest
        } else {
            match camera_id_of(evidence.frame_camera_ids@, frame.frame_index, 0) {
                None => rest,
                Some(camera_id) => match model_of(evidence.camera_models@, camera_id, 0) {
                    None => rest,
                    Some(model) => rest.push(
                        PosedView { pose: (count - 1) as usize, model: model as usize },
                    ),
                },
            }
        }
    }
}

/// All registered views whose camera is known.
pub fn posed_views(frames: &Vec<PoseFrame>, evidence: &GlobalTrajectoryEvidence) -> (views: Vec<
    PosedView,
>)
    ensures
        views@ == posed_views_of(frames@, *evidence, frames@.len() as int),
{
    let mut views: Vec<PosedView> = Vec::new();
    for i in 0..frames.len()
        invariant
            views@ == posed_views_of(frames@, *evidence, i as int),
    {
        if frames[i].registered {
            if let Some(camera_id) = find_camera_id(
                &evidence.frame_camera_ids,
                frames[i].frame_index,
            ) {
                if let Some(model) = find_model(&evidence.camera_models, camera_id) {
                    views.push(PosedView { pose: i, model });
                }
            }
        }
    }
    views
}

/// A frame is looked up to its first registered pose, the first camera recorded for it, and
/// the first model of that camera; it has a pose and a camera exactly where all three are
/// there.
pub proof fn law_frames_find_their_pose_and_camera(
    frames: Seq<PoseFrame>,
    evidence: GlobalTrajectoryEvidence,
    frame_index: usize,
)
    ensures
        match pose_and_camera_of(frames, evidence, frame_index) {
            Some((pose, model)) => {
                &&& 0 <= pose < frames.len() && 0 <= model < evidence.camera_models@.len()
                &&& frames[pose].registered && frames[pose].frame_index == frame_index
                &&& forall|k: int|
                    0 <= k < pose ==> !((#[trigger] frames[k]).registered && frames[k].frame_index
                        == frame_index)
                &&& exists|c: int|
                    {
                        &&& 0 <= c < evidence.frame_camera_ids@.len()
                        &&& (#[trigger] evidence.frame_camera_ids@[c]).frame_index == frame_index
                        &&& evidence.frame_camera_ids@[c].camera_id
                            == evidence.camera_models@[model].camera_id
                    }
                &&& forall|k: int|
                    0 <= k < model ==> (#[trigger] evidence.camera_models@[k]).camera_id
                        != evidence.camera_models@[model].camera_id
            },
            None => {
                ||| forall|k: int|
                    0 <= k < frames.len() ==> !((#[trigger] frames[k]).registered
                        && frames[k].frame_index == frame_index)
                ||| forall|c: int|
                    0 <= c < evidence.frame_camera_ids@.len() ==> (
                    #[trigger] evidence.frame_camera_ids@[c]).frame_index != frame_index
                ||| exists|c: int|
                    {
                        &&& 0 <= c < evidence.frame_camera_ids@.len()
                        &&& (#[trigger] evidence.frame_camera_ids@[c]).frame_index == frame_index
                        &&& forall|k: int|
                            0 <= k < evidence.camera_models@.len() ==> (
                            #[trigger] evidence.camera_models@[k]).camera_id
                                != evidence.frame_camera_ids@[c].camera_id
                    }
            },
        },
{
    lemma_pose_of(frames, frame_index, 0);
    lemma_camera_id_of(evidence.frame_camera_ids@, frame_index, 0);
    if let Some(camera_id) = camera_id_of(evidence.frame_camera_ids@, frame_index, 0) {
        lemma_model_of(evidence.camera_models@, camera_id, 0);
    }
}

proof fn lemma_pose_of(frames: Seq<PoseFrame>, frame_index: usize, start: int)
    requires
        0 <= start <= frames.len(),
    ensures
        match pose_of(frames, frame_index, start) {
            Some(i) => {
                &&& start <= i < frames.len()
                &&& frames[i].registered && frames[i].frame_index == frame_index
                &&& forall|k: int|
                    start <= k < i ==> !((#[trigger] frames[k]).registered && frames[k].frame_index
                        == frame_index)
            },
            None => forall|k: int|
                start <= k < frames.len() ==> !((#[trigger] frames[k]).registered
                    && frames[k].frame_index == frame_index),
        },
    decreases frames.len() - start,
{
    if start < frames.len() {
        lemma_pose_of(frames, frame_index, start + 1);
    }
}

proof fn lemma_camera_id_of(cameras: Seq<FrameCamera>, frame_index: usize, start: int)
    requires
        0 <= start <= cameras.len(),
    ensures
        match camera_id_of(cameras, frame_index, start) {
            Some(id) => exists|c: int|
                start <= c < cameras.len() && (#[trigger] cameras[c]).frame_index == frame_index
                    && cameras[c].camera_id == id,
            None => forall|c: int|
                start <= c < cameras.len() ==> (#[trigger] cameras[c]).frame_index != frame_index,
        },
    decreases cameras.len() - start,
{
    if start < cameras.len() {
        lemma_camera_id_of(cameras, frame_index, start + 1);
        if cameras[start].frame_index != frame_index && camera_id_of(
            cameras,
            frame_index,
            start + 1,
        ) is Some {
            let id = camera_id_of(cameras, frame_index, start + 1).unwrap();
            let c = choose|c: int|
                start + 1 <= c < cameras.len() && (#[trigger] cameras[c]).frame_index == frame_index
                    && cameras[c].camera_id == id;
            assert(cameras[c].camera_id == id);
        }
    }
}

proof fn lemma_model_of(models: Seq<ColmapCameraModel>, camera_id: u32, start: int)
    requires
        0 <= start <= models.len(),
    ensures
        match model_of(models, camera_id, start) {
            Some(i) => {
                &&& start <= i < models.len()
                &&& models[i].camera_id == camera_id
                &&& forall|k: int|
                    start <= k < i ==> (#[trigger] models[k]).camera_id != camera_id
            },
            None => forall|k: int|
                start <= k < models.len() ==> (#[trigger] models[k]).camera_id != camera_id,
        },
    decreases models.len() - start,
{
    if start < models.len() {
        lemma_model_of(models, camera_id, start + 1);
    }
}

/// The posed views are the registered frames whose camera is known, each with the model of
/// that camera, in their order.
pub proof fn law_posed_views_are_registered(
    frames: Seq<PoseFrame>,
    evidence: GlobalTrajectoryEvidence,
    count: int,
    i: int,
)
    requires
        0 <= count <= frames.len() <= usize::MAX,
        evidence.camera_models@.len() <= usize::MAX,
        0 <= i < posed_views_of(frames, evidence, count).len(),
    ensures
        ({
            let view = posed_views_of(frames, evidence, count)[i];
            &&& view.pose < count && view.model < evidence.camera_models@.len()
            &&& frames[view.pose as int].registered
            &&& exists|c: int|
                {
                    &&& 0 <= c < evidence.frame_camera_ids@.len()
                    &&& (#[trigger] evidence.frame_camera_ids@[c]).frame_index
                        == frames[view.pose as int].frame_index
                    &&& evidence.frame_camera_ids@[c].camera_id
                        == evidence.camera_models@[view.model as int].camera_id
                }
            &&& i > 0 ==> posed_views_of(frames, evidence, count)[i - 1].pose < view.pose
        }),
    decreases count,
{
    let rest = posed_views_of(frames, evidence, count - 1);
    let frame = frames[count - 1];
    if i < rest.len() {
        law_posed_views_are_registered(frames, evidence, count - 1, i);
    } else {
        lemma_camera_id_of(evidence.frame_camera_ids@, frame.frame_index, 0);
        let camera_id = camera_id_of(evidence.frame_camera_ids@, frame.frame_index, 0).unwrap();
        lemma_model_of(evidence.camera_models@, camera_id, 0);
        if i > 0 {
            law_posed_views_are_registered(frames, evidence, count - 1, i - 1);
        }
    }
}

} // verus!
