//! Process discovery: the ordered list of candidate paths for the daemon
//! executable, and the selection of the first candidate that exists.
//!
//! Whether a path exists on the machine is a question for the caller's
//! filesystem; the library fixes the candidate order and the selection rule,
//! and takes the existence of each candidate as a plain flag.
use crate::errors::DaemonError;
use crate::text::{lit_chars, push_chars};
use vstd::prelude::*;

verus! {

/// The host operating system, as a runtime value.
#[derive(Clone, Copy, Debug, PartialEq, Eq, Structural)]
pub enum HostOs {
    Linux,
    Macos,
    Windows,
    Other,
}

/// The host processor architecture, as a runtime value.
#[derive(Clone, Copy, Debug, PartialEq, Eq, Structural)]
pub enum HostArch {
    Amd64,
    Arm64,
    Other,
}

/// The bare daemon binary name for a host operating system.
pub open spec fn spec_binary_name(os: HostOs) -> Seq<char> {
    if os is Windows {
        "daemon.exe"@
    } else {
        "daemon"@
    }
}

/// The platform-and-architecture-qualified daemon binary name; unrecognized
/// combinations fall back to the bare name.
pub open spec fn spec_arch_binary_name(os: HostOs, arch: HostArch) -> Seq<char> {
    match (os, arch) {
        (HostOs::Macos, HostArch::Arm64) => "daemon-darwin-arm64"@,
        (HostOs::Macos, HostArch::Amd64) => "daemon-darwin-amd64"@,
        (HostOs::Linux, HostArch::Amd64) => "daemon-linux-amd64"@,
        (HostOs::Linux, HostArch::Arm64) => "daemon-linux-arm64"@,
        (HostOs::Windows, HostArch::Amd64) => "daemon-windows-amd64.exe"@,
        _ => spec_binary_name(os),
    }
}

/// A directory joined with a file name.
pub open spec fn spec_join(dir: Seq<char>, name: Seq<char>) -> Seq<char> {
    dir + "/"@ + name
}

/// The candidate paths for the daemon binary, in priority order: the
/// resource directory (bare and qualified names, then the same two under a
/// `binaries` subdirectory), the directory of the running executable, the
/// working directory, and the development output directories.
pub open spec fn spec_candidates(
    resource_dir: Option<Vec<char>>,
    exe_dir: Option<Vec<char>>,
    os: HostOs,
    arch: HostArch,
) -> Seq<Seq<char>> {
    let plain = spec_binary_name(os);
    let qual = spec_arch_binary_name(os, arch);
    (match resource_dir {
        Some(d) => seq![
            spec_join(d@, plain),
            spec_join(d@, qual),
            spec_join(spec_join(d@, "binaries"@), plain),
            spec_join(spec_join(d@, "binaries"@), qual),
        ],
        None => Seq::empty(),
    }) + (match exe_dir {
        Some(d) => seq![spec_join(d@, plain), spec_join(d@, qual)],
        None => Seq::empty(),
    }) + seq![
        plain,
        qual,
        spec_join("../../dist"@, qual),
        spec_join("../dist"@, qual),
        spec_join("dist"@, qual),
    ]
}

/// The bare daemon binary name for `os`.
pub fn binary_name(os: HostOs) -> (r: Vec<char>)
    ensures
        r@ == spec_binary_name(os),
{
    match os {
        HostOs::Windows => lit_chars("daemon.exe"),
        _ => lit_chars("daemon"),
    }
}

/// The qualified daemon binary name for `os` and `arch`.
pub fn arch_binary_name(os: HostOs, arch: HostArch) -> (r: Vec<char>)
    ensures
        r@ == spec_arch_binary_name(os, arch),
{
    match (os, arch) {
        (HostOs::Macos, HostArch::Arm64) => lit_chars("daemon-darwin-arm64"),
        (HostOs::Macos, HostArch::Amd64) => lit_chars("daemon-darwin-amd64"),
        (HostOs::Linux, HostArch::Amd64) => lit_chars("daemon-linux-amd64"),
        (HostOs::Linux, HostArch::Arm64) => lit_chars("daemon-linux-arm64"),
        (HostOs::Windows, HostArch::Amd64) => lit_chars("daemon-windows-amd64.exe"),
        _ => binary_name(os),
    }
}

/// `dir` joined with `name`.
pub fn path_join(dir: &[char], name: &[char]) -> (r: Vec<char>)
    ensures
        r@ == spec_join(dir@, name@),
{
    let mut r: Vec<char> = Vec::new();
    push_chars(&mut r, dir);
    r.push('/');
    push_chars(&mut r, name);
    proof {
        reveal_strlit("/");
        assert(r@ =~= spec_join(dir@, name@));
    }
    r
}

/// The candidate paths for the daemon binary, in priority order.
pub fn get_binary_candidates(
    resource_dir: &Option<Vec<char>>,
    exe_dir: &Option<Vec<char>>,
    os: HostOs,
    arch: HostArch,
) -> (r: Vec<Vec<char>>)
    ensures
        r@.map_values(|p: Vec<char>| p@) == spec_candidates(*resource_dir, *exe_dir, os, arch),
{
    let plain = binary_name(os);
    let qual = arch_binary_name(os, arch);
    let mut r: Vec<Vec<char>> = Vec::new();
    if let Some(d) = resource_dir {
        let sub = path_join(d.as_slice(), lit_chars("binaries").as_slice());
        r.push(path_join(d.as_slice(), plain.as_slice()));
        r.push(path_join(d.as_slice(), qual.as_slice()));
        r.push(path_join(sub.as_slice(), plain.as_slice()));
        r.push(path_join(sub.as_slice(), qual.as_slice()));
    }
    if let Some(d) = exe_dir {
        r.push(path_join(d.as_slice(), plain.as_slice()));
        r.push(path_join(d.as_slice(), qual.as_slice()));
    }
    r.push(plain.clone());
    r.push(qual.clone());
    r.push(path_join(lit_chars("../../dist").as_slice(), qual.as_slice()));
    r.push(path_join(lit_chars("../dist").as_slice(), qual.as_slice()));
    r.push(path_join(lit_chars("dist").as_slice(), qual.as_slice()));
    proof {
        assert(r@.map_values(|p: Vec<char>| p@) =~= spec_candidates(
            *resource_dir,
            *exe_dir,
            os,
            arch,
        ));
    }
    r
}

/// Evaluates the ordered candidate list against the given existence flags and
/// returns the index of the first candidate that exists, or `BinaryNotFound`
/// when none does.
pub fn find_daemon_binary(candidates: &Vec<Vec<char>>, exists: &Vec<bool>) -> (r: Result<
    usize,
    DaemonError,
>)
    requires
        candidates@.len() == exists@.len(),
    ensures
        match r {
            Ok(i) => i < candidates@.len() && exists@[i as int] && forall|j: int|
                0 <= j < i ==> !exists@[j],
            Err(e) => e == DaemonError::BinaryNotFound && forall|j: int|
                0 <= j < exists@.len() ==> !exists@[j],
        },
{
    let mut i: usize = 0;
    while i < exists.len()
        invariant
            i <= exists@.len(),
            candidates@.len() == exists@.len(),
            forall|j: int| 0 <= j < i ==> !exists@[j],
        decreases exists@.len() - i,
    {
        if exists[i] {
            return Ok(i);
        }
        i += 1;
    }
    Err(DaemonError::BinaryNotFound)
}

} // verus!
