use vstd::prelude::*;

verus! {

/// Kind of camera.
#[derive(Clone, Copy, PartialEq, Eq, Debug, Structural)]
pub enum CameraKind {
    PiCam,
    Usb,
}

/// Rotation or flip applied to a camera's video.
#[derive(Clone, Copy, PartialEq, Eq, Debug, Structural)]
pub enum VideoOrientation {
    /// Video as the camera delivers it.
    Unrotated,
    Clockwise,
    Rotate180,
    Counterclockwise,
}

/// A frame rate as a fraction.
#[derive(Clone, Copy, PartialEq, Eq, Debug, Structural)]
pub struct CfgFraction {
    pub num: u32,
    pub den: u32,
}

/// Capture settings of a camera.
#[derive(Clone, Debug)]
pub struct CameraSettings {
    pub width: u32,
    pub height: u32,
    pub frame_rate: Option<CfgFraction>,
    pub format: Option<String>,
}

impl Default for CameraSettings {
    fn default() -> (s: Self)
        ensures
            s.width == 0,
            s.height == 0,
            s.frame_rate is None,
            s.format is None,
    {
        Self { width: 0, height: 0, frame_rate: None, format: None }
    }
}

/// Settings of the MJPEG stream subsystem.
#[derive(Clone, Copy, PartialEq, Eq, Debug, Structural)]
pub struct MjpegSubsys {
    pub width: u32,
    pub height: u32,
}

/// Settings of the C AprilTags subsystem.
#[derive(Clone, Copy, PartialEq, Eq, Debug, Structural)]
pub struct CAprilTagsSubsys {
    pub max_frame_rate: u8,
}

/// Settings of the machine-learning subsystem.
#[derive(Clone, Copy, PartialEq, Eq, Debug, Structural)]
pub struct MlSubsys {}

/// A user-provided subsystem.
#[derive(Clone, Debug)]
pub struct CustomSubsystem {
    pub code: String,
}

/// Settings of the rerun viewer connection.
#[derive(Clone, Debug)]
pub struct Rerun {
    pub server_address: Option<String>,
}

/// The subsystems a camera runs.
#[derive(Clone, Debug)]
pub struct CameraSubsystems {
    pub mjpeg: Option<MjpegSubsys>,
    pub capriltags: Option<CAprilTagsSubsys>,
    pub ml: Option<MlSubsys>,
    pub custom: Vec<String>,
}

impl CameraSubsystems {
    /// The subsystems a newly discovered camera starts with: a 1280x720 MJPEG stream and the
    /// C AprilTags detector at up to 40 frames per second.
    pub fn camera_default() -> (s: Self)
        ensures
            s.mjpeg == Some(MjpegSubsys { width: 1280, height: 720 }),
            s.capriltags == Some(CAprilTagsSubsys { max_frame_rate: 40 }),
            s.ml is None,
            s.custom@.len() == 0,
    {
        CameraSubsystems {
            mjpeg: Some(MjpegSubsys { width: 1280, height: 720 }),
            capriltags: Some(CAprilTagsSubsys { max_frame_rate: 40 }),
            ml: None,
            custom: Vec::new(),
        }
    }
}

/// Version and load of the system, as reported by the API.
#[derive(Clone, Copy, Debug)]
pub struct Info {
    pub version: &'static str,
    pub cpu_usage: u8,
    pub mem_usage: u8,
}

/// The discovered cameras picked by `idx`, by id.
pub open spec fn picked(discovered: Seq<Seq<char>>, idx: Seq<usize>) -> Seq<Seq<char>> {
    idx.map_values(|i: usize| discovered[i as int])
}

/// Indices, among the first `n` discovered cameras, of those that are added to the
/// configuration: each one whose id is neither configured already nor added before it.
pub open spec fn new_camera_indices(existing: Seq<Seq<char>>, discovered: Seq<Seq<char>>, n: int) -> Seq<
    usize,
>
    decreases n,
{
    if n <= 0 {
        seq![]
    } else {
        let prev = new_camera_indices(existing, discovered, n - 1);
        if (existing + picked(discovered, prev)).contains(discovered[n - 1]) {
            prev
        } else {
            prev.push((n - 1) as usize)
        }
    }
}

/// Ids of the configured cameras once the discovered ones are merged in.
pub open spec fn merged_ids(existing: Seq<Seq<char>>, discovered: Seq<Seq<char>>) -> Seq<Seq<char>> {
    existing + picked(discovered, new_camera_indices(existing, discovered, discovered.len() as int))
}

proof fn lemma_push_deep(before: Vec<String>, after: Vec<String>, s: String)
    requires
        after@ == before@.push(s),
    ensures
        after.deep_view() == before.deep_view().push(s@),
{
    assert(after.deep_view() =~= before.deep_view().push(s@));
}

/// Whether `ids` holds `id`, compared as strings.
fn contains_id(ids: &Vec<String>, id: &String) -> (b: bool)
    ensures
        b == ids.deep_view().contains(id@),
{
    let mut i: usize = 0;
    while i < ids.len()
        invariant
            i <= ids.len(),
            forall|j: int| 0 <= j < i ==> ids.deep_view()[j] != id@,
        decreases ids.len() - i,
    {
        if ids[i] == *id {
            proof {
                assert(ids.deep_view()[i as int] == id@);
            }
            return true;
        }
        i = i + 1;
    }
    proof {
        if ids.deep_view().contains(id@) {
            let j = choose|j: int| 0 <= j < ids.deep_view().len() && ids.deep_view()[j] == id@;
            assert(ids.deep_view()[j] != id@);
        }
    }
    false
}

/// Which discovered cameras the configuration listing adds, as indices into `discovered`:
/// `None` when there is no camera list and nothing was discovered (the list stays absent),
/// else the cameras whose id is neither configured already nor added before them, in
/// discovery order. A missing list counts as an empty one.
pub fn cameras_to_add(existing: Option<&[String]>, discovered: &[String]) -> (r: Option<Vec<usize>>)
    ensures
        r is None <==> (existing is None && discovered.len() == 0),
        r matches Some(idx) ==> idx@ == new_camera_indices(
            match existing {
                Some(e) => e.deep_view(),
                None => Seq::<Seq<char>>::empty(),
            },
            discovered.deep_view(),
            discovered.len() as int,
        ),
{
    let ghost ex: Seq<Seq<char>> = match existing {
        Some(e) => e.deep_view(),
        None => Seq::<Seq<char>>::empty(),
    };
    let ghost dv = discovered.deep_view();
    if existing.is_none() && discovered.len() == 0 {
        return None;
    }
    let mut ids: Vec<String> = Vec::new();
    match existing {
        Some(e) => {
            let mut k: usize = 0;
            while k < e.len()
                invariant
                    k <= e.len(),
                    ids.deep_view() == e.deep_view().take(k as int),
                decreases e.len() - k,
            {
                let c = e[k].clone();
                let ghost before = ids;
                let ghost cg = c;
                ids.push(c);
                proof {
                    lemma_push_deep(before, ids, cg);
                    assert(e.deep_view().take(k + 1) =~= e.deep_view().take(k as int).push(cg@));
                }
                k = k + 1;
            }
            proof {
                assert(e.deep_view().take(e.len() as int) =~= e.deep_view());
            }
        },
        None => {
            proof {
                assert(ids.deep_view() =~= ex);
            }
        },
    }
    let mut idx: Vec<usize> = Vec::new();
    let mut i: usize = 0;
    while i < discovered.len()
        invariant
            i <= discovered.len(),
            dv == discovered.deep_view(),
            idx@ == new_camera_indices(ex, dv, i as int),
            ids.deep_view() == ex + picked(dv, idx@),
        decreases discovered.len() - i,
    {
        if !contains_id(&ids, &discovered[i]) {
            let c = discovered[i].clone();
            let ghost before = ids;
            let ghost cg = c;
            ids.push(c);
            idx.push(i);
            proof {
                lemma_push_deep(before, ids, cg);
                assert(picked(dv, idx@) =~= picked(dv, new_camera_indices(ex, dv, i as int)).push(
                    dv[i as int],
                ));
                assert(ids.deep_view() =~= ex + picked(dv, idx@));
            }
        }
        i = i + 1;
    }
    Some(idx)
}

/// Position of the first camera whose id is `id`, if any.
pub fn camera_position(ids: &[String], id: &String) -> (r: Option<usize>)
    ensures
        r is None <==> !ids.deep_view().contains(id@),
        r matches Some(p) ==> p < ids.len() && ids.deep_view()[p as int] == id@ && forall|j: int|
            0 <= j < p ==> ids.deep_view()[j] != id@,
{
    let mut i: usize = 0;
    while i < ids.len()
        invariant
            i <= ids.len(),
            forall|j: int| 0 <= j < i ==> ids.deep_view()[j] != id@,
        decreases ids.len() - i,
    {
        if ids[i] == *id {
            proof {
                assert(ids.deep_view()[i as int] == id@);
            }
            return Some(i);
        }
        i = i + 1;
    }
    proof {
        if ids.deep_view().contains(id@) {
            let j = choose|j: int| 0 <= j < ids.deep_view().len() && ids.deep_view()[j] == id@;
            assert(ids.deep_view()[j] != id@);
        }
    }
    None
}

/// The `k`-th added index `idx[k]` is below `n`, above the indices added before it, and its
/// camera's id is found neither among the configured cameras nor among those added before it.
pub open spec fn fresh_pick(
    existing: Seq<Seq<char>>,
    discovered: Seq<Seq<char>>,
    idx: Seq<usize>,
    k: int,
    n: int,
) -> bool {
    &&& 0 <= idx[k] < n
    &&& !(existing + picked(discovered, idx.take(k))).contains(discovered[idx[k] as int])
    &&& forall|a: int| 0 <= a < k ==> idx[a] < idx[k]
}

proof fn lemma_indices_prefix(existing: Seq<Seq<char>>, discovered: Seq<Seq<char>>, n: int)
    requires
        0 <= n <= discovered.len(),
        discovered.len() <= usize::MAX,
    ensures
        forall|k: int|
            0 <= k < new_camera_indices(existing, discovered, n).len() ==> #[trigger] fresh_pick(
                existing,
                discovered,
                new_camera_indices(existing, discovered, n),
                k,
                n,
            ),
    decreases n,
{
    if n > 0 {
        lemma_indices_prefix(existing, discovered, n - 1);
        let prev = new_camera_indices(existing, discovered, n - 1);
        let idx = new_camera_indices(existing, discovered, n);
        assert forall|k: int| 0 <= k < idx.len() implies #[trigger] fresh_pick(
            existing,
            discovered,
            idx,
            k,
            n,
        ) by {
            if k < prev.len() {
                assert(fresh_pick(existing, discovered, prev, k, n - 1));
                assert(idx[k] == prev[k]);
                assert(idx.take(k) =~= prev.take(k));
                assert forall|a: int| 0 <= a < k implies idx[a] < idx[k] by {
                    assert(idx[a] == prev[a]);
                }
            } else {
                assert(!(existing + picked(discovered, prev)).contains(discovered[n - 1]));
                assert(idx == prev.push((n - 1) as usize));
                assert(idx.take(k) =~= prev);
                assert forall|a: int| 0 <= a < k implies idx[a] < idx[k] by {
                    assert(fresh_pick(existing, discovered, prev, a, n - 1));
                    assert(idx[a] == prev[a]);
                }
            }
        }
    }
}

proof fn lemma_indices_cover(existing: Seq<Seq<char>>, discovered: Seq<Seq<char>>, n: int)
    requires
        0 <= n <= discovered.len(),
        discovered.len() <= usize::MAX,
    ensures
        forall|j: int|
            0 <= j < n ==> (existing + picked(
                discovered,
                new_camera_indices(existing, discovered, n),
            )).contains(#[trigger] discovered[j]),
    decreases n,
{
    if n > 0 {
        lemma_indices_cover(existing, discovered, n - 1);
        let prev = new_camera_indices(existing, discovered, n - 1);
        let before = existing + picked(discovered, prev);
        let idx = new_camera_indices(existing, discovered, n);
        let after = existing + picked(discovered, idx);
        if !before.contains(discovered[n - 1]) {
            assert(picked(discovered, idx) =~= picked(discovered, prev).push(discovered[n - 1]));
            assert(after =~= before.push(discovered[n - 1]));
            assert forall|j: int| 0 <= j < n implies after.contains(#[trigger] discovered[j]) by {
                if j < n - 1 {
                    let w = choose|w: int| 0 <= w < before.len() && before[w] == discovered[j];
                    assert(after[w] == discovered[j]);
                } else {
                    assert(after[before.len() as int] == discovered[j]);
                }
            }
        }
    }
}

/// Merging the discovered cameras into the configuration leaves every configured camera in
/// place, in front, and every discovered camera's id in the result.
pub proof fn lemma_merge_complete(existing: Seq<Seq<char>>, discovered: Seq<Seq<char>>)
    requires
        discovered.len() <= usize::MAX,
    ensures
        merged_ids(existing, discovered).take(existing.len() as int) == existing,
        forall|j: int|
            0 <= j < discovered.len() ==> merged_ids(existing, discovered).contains(
                #[trigger] discovered[j],
            ),
{
    lemma_indices_cover(existing, discovered, discovered.len() as int);
    assert(merged_ids(existing, discovered).take(existing.len() as int) =~= existing);
}

/// Merging adds each camera at most once: an added camera's id is found neither among the
/// configured cameras nor among those added before it, and the added cameras keep their
/// discovery order.
pub proof fn lemma_merge_fresh(existing: Seq<Seq<char>>, discovered: Seq<Seq<char>>)
    requires
        discovered.len() <= usize::MAX,
    ensures
        forall|k: int|
            0 <= k < new_camera_indices(existing, discovered, discovered.len() as int).len()
                ==> #[trigger] fresh_pick(
                existing,
                discovered,
                new_camera_indices(existing, discovered, discovered.len() as int),
                k,
                discovered.len() as int,
            ),
{
    lemma_indices_prefix(existing, discovered, discovered.len() as int);
}

} // verus!
