use vstd::prelude::*;
use vstd::string::StringExecFns;

verus! {

/// What the camera publisher announces for one camera on NetworkTables.
pub struct CameraAnnouncement {
    pub source: String,
    pub streams: Vec<String>,
    pub description: String,
    pub connected: bool,
    pub modes: Vec<String>,
}

/// NetworkTables topic `leaf` of camera `id` under the camera publisher table.
pub fn camera_topic(id: &str, leaf: &str) -> (t: String)
    ensures
        t@ == "/CameraPublisher/"@ + id@ + "/"@ + leaf@,
{
    let t = String::from_str("/CameraPublisher/");
    let t = t.concat(id);
    let t = t.concat("/");
    t.concat(leaf)
}

/// Address of the MJPEG stream of camera `id` served by host `hostname`.
pub fn stream_url(hostname: &str, id: &str) -> (u: String)
    ensures
        u@ == "mjpeg:http://"@ + hostname@ + ".local:6942/stream/"@ + id@,
{
    let u = String::from_str("mjpeg:http://");
    let u = u.concat(hostname);
    let u = u.concat(".local:6942/stream/");
    u.concat(id)
}

/// The values published for camera `id` of host `hostname`: a USB source, its one MJPEG
/// stream, the description "Chalkydri", connected, and the modes "On" and "Off".
pub fn announcement(hostname: &str, id: &str) -> (a: CameraAnnouncement)
    ensures
        a.source@ == "usb:0"@,
        a.streams@.len() == 1,
        a.streams@[0]@ == "mjpeg:http://"@ + hostname@ + ".local:6942/stream/"@ + id@,
        a.description@ == "Chalkydri"@,
        a.connected,
        a.modes@.len() == 2,
        a.modes@[0]@ == "On"@,
        a.modes@[1]@ == "Off"@,
{
    let mut streams: Vec<String> = Vec::new();
    streams.push(stream_url(hostname, id));
    let mut modes: Vec<String> = Vec::new();
    modes.push(String::from_str("On"));
    modes.push(String::from_str("Off"));
    CameraAnnouncement {
        source: String::from_str("usb:0"),
        streams,
        description: String::from_str("Chalkydri"),
        connected: true,
        modes,
    }
}

} // verus!
