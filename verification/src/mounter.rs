//! Mounting the remote backup folder: the command that mounts it, how the
//! mount table is read, and what is reported.

use vstd::prelude::*;

use crate::config::ServerConfig;
use crate::text::{chars_of, concat_str, contains_seq, push_all, seq_contains, string_of};

verus! {

/// The shell command that mounts the remote folder:
/// `echo <password> | sshfs <username>@<server_ip>:<remote_dir> <local_dir> -o password_stdin`.
pub open spec fn mount_command_of(
    password: Seq<char>,
    username: Seq<char>,
    server_ip: Seq<char>,
    remote_dir: Seq<char>,
    local_dir: Seq<char>,
) -> Seq<char> {
    "echo "@ + password + " | sshfs "@ + username + "@"@ + server_ip + ":"@ + remote_dir + " "@
        + local_dir + " -o password_stdin"@
}

/// Every field stands in the command verbatim, whatever its length: the
/// password right after `echo `, followed by ` | sshfs `, the user name,
/// `@`, the server, `:`, the remote folder, a space, the local folder and
/// ` -o password_stdin`.
pub proof fn lemma_mount_command_fields(
    password: Seq<char>,
    username: Seq<char>,
    server_ip: Seq<char>,
    remote_dir: Seq<char>,
    local_dir: Seq<char>,
)
    ensures
        ({
            let cmd = mount_command_of(password, username, server_ip, remote_dir, local_dir);
            let p: int = 5 + password.len() as int;
            let u: int = p + 9 + username.len();
            let h: int = u + 1 + server_ip.len();
            let r: int = h + 1 + remote_dir.len();
            let l: int = r + 1 + local_dir.len();
            &&& cmd.len() == l + 18
            &&& cmd.subrange(0, 5) == seq!['e', 'c', 'h', 'o', ' ']
            &&& cmd.subrange(5, p) == password
            &&& cmd.subrange(p, p + 9) == seq![' ', '|', ' ', 's', 's', 'h', 'f', 's', ' ']
            &&& cmd.subrange(p + 9, u) == username
            &&& cmd[u] == '@'
            &&& cmd.subrange(u + 1, h) == server_ip
            &&& cmd[h] == ':'
            &&& cmd.subrange(h + 1, r) == remote_dir
            &&& cmd[r] == ' '
            &&& cmd.subrange(r + 1, l) == local_dir
        }),
{
    reveal_strlit("echo ");
    reveal_strlit(" | sshfs ");
    reveal_strlit("@");
    reveal_strlit(":");
    reveal_strlit(" ");
    reveal_strlit(" -o password_stdin");
    let cmd = mount_command_of(password, username, server_ip, remote_dir, local_dir);
    let p: int = 5 + password.len() as int;
    let u: int = p + 9 + username.len();
    let h: int = u + 1 + server_ip.len();
    let r: int = h + 1 + remote_dir.len();
    let l: int = r + 1 + local_dir.len();
    assert(cmd.subrange(0, 5) =~= seq!['e', 'c', 'h', 'o', ' ']);
    assert(cmd.subrange(5, p) =~= password);
    assert(cmd.subrange(p, p + 9) =~= seq![' ', '|', ' ', 's', 's', 'h', 'f', 's', ' ']);
    assert(cmd.subrange(p + 9, u) =~= username);
    assert(cmd.subrange(u + 1, h) =~= server_ip);
    assert(cmd.subrange(h + 1, r) =~= remote_dir);
    assert(cmd.subrange(r + 1, l) =~= local_dir);
}

/// Returns the shell command that mounts `config.remote_dir` of the server
/// at `config.local_dir` with sshfs, feeding the password on its input.
pub fn mount_command(config: &ServerConfig) -> (cmd: String)
    ensures
        cmd@ == mount_command_of(
            config.password@,
            config.username@,
            config.server_ip@,
            config.remote_dir@,
            config.local_dir@,
        ),
        cmd@ == "echo "@ + config.password@ + " | sshfs "@ + config.username@ + "@"@
            + config.server_ip@ + ":"@ + config.remote_dir@ + " "@ + config.local_dir@
            + " -o password_stdin"@,
{
    let mut cs = chars_of("echo ");
    push_all(&mut cs, &chars_of(config.password.as_str()));
    push_all(&mut cs, &chars_of(" | sshfs "));
    push_all(&mut cs, &chars_of(config.username.as_str()));
    push_all(&mut cs, &chars_of("@"));
    push_all(&mut cs, &chars_of(config.server_ip.as_str()));
    push_all(&mut cs, &chars_of(":"));
    push_all(&mut cs, &chars_of(config.remote_dir.as_str()));
    push_all(&mut cs, &chars_of(" "));
    push_all(&mut cs, &chars_of(config.local_dir.as_str()));
    push_all(&mut cs, &chars_of(" -o password_stdin"));
    string_of(&cs)
}

/// Whether the mount table `listing` (the output of `mount -l`) mentions
/// `path`, which is how a mount point is recognised.
pub fn listing_mentions(listing: &str, path: &str) -> (res: bool)
    ensures
        res == contains_seq(listing@, path@),
{
    seq_contains(&chars_of(listing), &chars_of(path))
}

/// The next step of mounting, once it is known whether the folder is
/// mounted already.
#[derive(Debug, PartialEq, Eq)]
pub enum MountAction {
    /// The folder is a mount point: nothing to do.
    AlreadyMounted,
    /// Run `command` in a shell to mount the folder.
    Mount { command: String },
    /// Whether the folder is mounted could not be found out.
    Fail { message: String },
}

/// Decides the next step of mounting from the outcome of the mount-point
/// check: nothing when the folder is mounted, the mount command when it is
/// not, and a failure that names the folder and the error when the check
/// failed.
pub fn plan_mount(config: &ServerConfig, mount_check: Result<bool, String>) -> (action:
    MountAction)
    ensures
        match mount_check {
            Ok(true) => action is AlreadyMounted,
            Ok(false) => action matches MountAction::Mount { command } && command@
                == mount_command_of(
                config.password@,
                config.username@,
                config.server_ip@,
                config.remote_dir@,
                config.local_dir@,
            ),
            Err(e) => action matches MountAction::Fail { message } && message@
                == "Failed to check if "@ + config.local_dir@ + " is mount point: "@ + e@,
        },
{
    match mount_check {
        Ok(true) => MountAction::AlreadyMounted,
        Ok(false) => MountAction::Mount { command: mount_command(config) },
        Err(e) => {
            let a = concat_str("Failed to check if ", config.local_dir.as_str());
            let b = concat_str(a.as_str(), " is mount point: ");
            let message = concat_str(b.as_str(), e.as_str());
            MountAction::Fail { message }
        },
    }
}

/// The outcome of the mount command: success, or an error that carries
/// what the command wrote to its error output.
pub fn finish_mount(succeeded: bool, stderr: &str) -> (res: Result<(), String>)
    ensures
        succeeded ==> res is Ok,
        !succeeded ==> (res matches Err(m) && m@ == "Failed to mount directory: "@ + stderr@),
{
    if succeeded {
        Ok(())
    } else {
        Err(concat_str("Failed to mount directory: ", stderr))
    }
}

/// The report of an unmount of `path`: the success message, or the error
/// that names the path and the reason the unmount failed.
pub fn unmount_report(path: &str, failure: Option<String>) -> (res: Result<String, String>)
    ensures
        match failure {
            None => res matches Ok(m) && m@ == "Successfully unmounted "@ + path@,
            Some(e) => res matches Err(m) && m@ == "Failed to unmount "@ + path@ + ": "@ + e@,
        },
{
    match failure {
        None => Ok(concat_str("Successfully unmounted ", path)),
        Some(e) => {
            let a = concat_str("Failed to unmount ", path);
            let b = concat_str(a.as_str(), ": ");
            Err(concat_str(b.as_str(), e.as_str()))
        },
    }
}

} // verus!
