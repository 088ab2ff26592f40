use vstd::prelude::*;
use vstd::string::StringExecFns;

verus! {

/// One capability structure a camera reports: its media type, its raw pixel format if it
/// gives one, and its frame size (0 where it gives a range instead).
pub struct CapsStructure {
    pub name: String,
    pub format: Option<String>,
    pub width: i32,
    pub height: i32,
}

/// The pixel format of a video capability, or `None` for a media type that is not video.
pub open spec fn video_format(name: Seq<char>, format: Option<Seq<char>>) -> Option<Seq<char>> {
    if name == "image/jpeg"@ {
        Some("MJPEG"@)
    } else if name == "video/x-h264"@ {
        Some("H264"@)
    } else if name == "video/x-raw"@ {
        Some(
            match format {
                Some(f) => f,
                None => "RAW"@,
            },
        )
    } else {
        None
    }
}

/// The raw format of a capability structure, as text.
pub open spec fn format_view(c: CapsStructure) -> Option<Seq<char>> {
    match c.format {
        Some(f) => Some(f@),
        None => None,
    }
}

/// A capability structure is usable when it is video with a fixed, nonzero frame size.
pub open spec fn usable(c: CapsStructure) -> bool {
    &&& video_format(c.name@, format_view(c)) is Some
    &&& c.width != 0
    &&& c.height != 0
}

/// The widest usable frame size among the first `n` structures, the first one on ties;
/// (0, 0) when none is wider than 0.
pub open spec fn best_resolution_upto(caps: Seq<CapsStructure>, n: int) -> (i32, i32)
    decreases n,
{
    if n <= 0 {
        (0, 0)
    } else {
        let prev = best_resolution_upto(caps, n - 1);
        let c = caps[n - 1];
        if usable(c) && c.width > prev.0 {
            (c.width, c.height)
        } else {
            prev
        }
    }
}

/// An optional text, as characters.
pub open spec fn text_view(t: Option<&str>) -> Option<Seq<char>> {
    match t {
        Some(s) => Some(s@),
        None => None,
    }
}

/// Whether two texts are equal.
fn same_text(a: &str, b: &str) -> (r: bool)
    ensures
        r == (a@ == b@),
{
    String::from_str(a) == String::from_str(b)
}

/// Determine the pixel format of a capability structure: MJPEG for JPEG images, H264 for
/// H.264 video, the reported format (else RAW) for raw video, and `None` for anything else.
pub fn pixel_format(name: &str, format: Option<&str>) -> (r: Option<String>)
    ensures
        match r {
            Some(s) => video_format(name@, text_view(format)) == Some(s@),
            None => video_format(name@, text_view(format)) is None,
        },
{
    if same_text(name, "image/jpeg") {
        Some(String::from_str("MJPEG"))
    } else if same_text(name, "video/x-h264") {
        Some(String::from_str("H264"))
    } else if same_text(name, "video/x-raw") {
        match format {
            Some(f) => Some(String::from_str(f)),
            None => Some(String::from_str("RAW")),
        }
    } else {
        None
    }
}

/// Whether a capability structure is usable.
fn is_usable(c: &CapsStructure) -> (b: bool)
    ensures
        b == usable(*c),
{
    let f = match &c.format {
        Some(s) => Some(s.as_str()),
        None => None,
    };
    let pf = pixel_format(c.name.as_str(), f);
    proof {
        assert(text_view(f) == format_view(*c));
    }
    pf.is_some() && c.width != 0 && c.height != 0
}

/// The best frame size a camera offers: the widest usable one, the first on ties, or (0, 0)
/// when none is wider than 0.
pub fn best_resolution(caps: &[CapsStructure]) -> (r: (i32, i32))
    ensures
        r == best_resolution_upto(caps@, caps@.len() as int),
        r.0 >= 0,
        forall|k: int| 0 <= k < caps@.len() && #[trigger] usable(caps@[k]) ==> caps@[k].width <= r.0,
        r == (0i32, 0i32) || exists|k: int|
            0 <= k < caps@.len() && usable(caps@[k]) && r == (caps@[k].width, caps@[k].height),
{
    let mut best_width: i32 = 0;
    let mut best_height: i32 = 0;
    let mut i: usize = 0;
    while i < caps.len()
        invariant
            i <= caps.len(),
            (best_width, best_height) == best_resolution_upto(caps@, i as int),
            best_width >= 0,
            forall|k: int| 0 <= k < i && #[trigger] usable(caps@[k]) ==> caps@[k].width <= best_width,
            (best_width, best_height) == (0i32, 0i32) || exists|k: int|
                0 <= k < i && usable(caps@[k]) && (best_width, best_height) == (
                    caps@[k].width,
                    caps@[k].height,
                ),
        decreases caps.len() - i,
    {
        let c = &caps[i];
        if is_usable(c) && c.width > best_width {
            best_width = c.width;
            best_height = c.height;
            proof {
                assert(usable(caps@[i as int]));
            }
        }
        i = i + 1;
    }
    (best_width, best_height)
}

} // verus!
