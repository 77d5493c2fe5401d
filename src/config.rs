//! The launcher's persisted settings and the game's launch arguments.

use vstd::prelude::*;

verus! {

broadcast use vstd::string::group_string_axioms;

/// User settings: the game's install directory, the player's name, and the
/// server to join.
pub struct LauncherConfig {
    pub gta_path: Option<String>,
    pub username: Option<String>,
    pub server_ip: String,
    pub server_port: u16,
}

/// The arguments that start the game connected to a server as a player:
/// `-h <host> -p <port> -n <name>`.
pub fn launch_arguments(server_ip: &str, server_port: &str, username: &str) -> (r: Vec<String>)
    ensures
        r@.len() == 6,
        r@[0]@ == seq!['-', 'h'],
        r@[1]@ == server_ip@,
        r@[2]@ == seq!['-', 'p'],
        r@[3]@ == server_port@,
        r@[4]@ == seq!['-', 'n'],
        r@[5]@ == username@,
{
    proof {
        reveal_strlit("-h");
        reveal_strlit("-p");
        reveal_strlit("-n");
    }
    let mut r: Vec<String> = Vec::new();
    r.push("-h".to_string());
    r.push(server_ip.to_string());
    r.push("-p".to_string());
    r.push(server_port.to_string());
    r.push("-n".to_string());
    r.push(username.to_string());
    proof {
        assert("-h"@ =~= seq!['-', 'h']);
        assert("-p"@ =~= seq!['-', 'p']);
        assert("-n"@ =~= seq!['-', 'n']);
    }
    r
}

} // verus!
