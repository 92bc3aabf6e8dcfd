//! How the BIRD exporter is run beside BIRD.

use crate::text;
use vstd::prelude::*;

verus! {

/// The exporter's arguments: BIRD's control socket and the one address to serve on.
pub fn args(socket: &str, listen: &str) -> (r: Vec<String>)
    ensures
        text::texts(r@) == seq![
            "-bird.v2"@,
            "-bird.socket"@,
            socket@,
            "-web.listen-address"@,
            listen@,
        ],
{
    let mut r: Vec<String> = Vec::new();
    r.push("-bird.v2".to_owned());
    r.push("-bird.socket".to_owned());
    r.push(socket.to_owned());
    r.push("-web.listen-address".to_owned());
    r.push(listen.to_owned());
    assert(text::texts(r@) =~= seq![
        "-bird.v2"@,
        "-bird.socket"@,
        socket@,
        "-web.listen-address"@,
        listen@,
    ]);
    r
}

} // verus!
