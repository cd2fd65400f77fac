use vstd::prelude::*;
use crate::hash::{blake3_hex, is_lower_hex_digit, to_hash};
use crate::paths::{ComponentModel, PathComponent, copy_prefix, file_name, final_name};

verus! {

// ---------------------------------------------------------------------------
// Reading cargo's messages
// ---------------------------------------------------------------------------

/// Names what one line of `cargo build --message-format=json-render-diagnostics`
/// output says of an executable: the path of the executable when the line is a
/// `compiler-artifact` message that names one, else nothing.
pub uninterp spec fn artifact_executable(line: Seq<char>) -> Option<Seq<char>>;

/// Calls `cargo_metadata::Message::parse_stream` on one line of cargo's output
/// and takes the `executable` of a `CompilerArtifact` message. Trusted: the
/// result is named `artifact_executable(line)`; the JSON decoding itself is
/// cargo_metadata's and is not stated.
#[verifier::external_body]
fn parse_artifact_executable(line: &str) -> (r: Option<String>)
    ensures
        r.deep_view() == artifact_executable(line@),
{
    match cargo_metadata::Message::parse_stream(line.as_bytes()).next() {
        Some(Ok(cargo_metadata::Message::CompilerArtifact(artifact))) => match artifact.executable {
            Some(path) => Some(path.into_string()),
            None => None,
        },
        _ => None,
    }
}

/// The last executable among the messages' findings.
pub open spec fn spec_last_executable(found: Seq<Option<Seq<char>>>) -> Option<Seq<char>>
    decreases found.len(),
{
    if found.len() == 0 {
        None
    } else if found.last() is Some {
        found.last()
    } else {
        spec_last_executable(found.drop_last())
    }
}

/// The executable of a build is the one named by the last message that names
/// one, wherever it stands (the first message included): when `found[i]` names
/// an executable and no later entry does, the result is `found[i]`; there is
/// none only when no entry names one.
pub proof fn law_last_named_executable(found: Seq<Option<Seq<char>>>, i: int)
    requires
        0 <= i < found.len(),
        found[i] is Some,
        forall|j: int| i < j < found.len() ==> #[trigger] found[j] is None,
    ensures
        spec_last_executable(found) == found[i],
    decreases found.len(),
{
    if found.len() - 1 > i {
        assert forall|j: int| i < j < found.drop_last().len() implies #[trigger] found.drop_last()[j] is None by {
            assert(found.drop_last()[j] == found[j]);
        }
        lemma_drop_last_index(found, i);
        law_last_named_executable(found.drop_last(), i);
    }
}

proof fn lemma_drop_last_index(found: Seq<Option<Seq<char>>>, i: int)
    requires
        0 <= i < found.len() - 1,
    ensures
        found.drop_last()[i] == found[i],
{
}

/// A build names no executable exactly when none of its messages names one.
pub proof fn law_no_executable(found: Seq<Option<Seq<char>>>)
    ensures
        spec_last_executable(found) is None <==> forall|j: int| 0 <= j < found.len() ==> #[trigger] found[j] is None,
    decreases found.len(),
{
    if found.len() > 0 {
        law_no_executable(found.drop_last());
        if spec_last_executable(found) is None {
            assert forall|j: int| 0 <= j < found.len() implies #[trigger] found[j] is None by {
                if j < found.len() - 1 {
                    assert(found.drop_last()[j] == found[j]);
                }
            }
        } else {
            if forall|j: int| 0 <= j < found.len() ==> #[trigger] found[j] is None {
                assert(found[found.len() - 1] is None);
                assert forall|j: int| 0 <= j < found.drop_last().len() implies #[trigger] found.drop_last()[j] is None by {
                    assert(found.drop_last()[j] == found[j]);
                }
            }
        }
    }
}


/// messages name, in the order of the messages.
#[verifier::loop_isolation(false)]
pub fn last_executable(found: Vec<Option<String>>) -> (r: Option<String>)
    ensures
        r.deep_view() == spec_last_executable(found.deep_view()),
{
    let ghost all = found.deep_view();
    let mut rest = found;
    let mut n = rest.len();
    assert(all.take(n as int) =~= all);
    while n > 0
        invariant
            n == rest.len(),
            n <= all.len(),
            rest.deep_view() == all.take(n as int),
            spec_last_executable(all) == spec_last_executable(all.take(n as int)),
        decreases n,
    {
        let ghost before = rest.deep_view();
        let last = rest.pop();
        assert(before.drop_last() =~= rest.deep_view());
        assert(before.last() == last->0.deep_view());
        assert(all.take(n - 1) =~= before.drop_last());
        match last {
            Some(Some(path)) => {
                assert(before.last() == Some(path@));
                assert(spec_last_executable(before) == Some(path@));
                return Some(path);
            },
            _ => {},
        }
        n = n - 1;
    }
    None
}

/// The executable named by cargo's output `lines` (each as read, with or
/// without its line break).
pub fn build_executable(lines: &Vec<String>) -> (r: Option<String>)
    ensures
        r.deep_view() == spec_last_executable(
            lines.deep_view().map_values(|l: Seq<char>| artifact_executable(l)),
        ),
{
    let ghost all = lines.deep_view().map_values(|l: Seq<char>| artifact_executable(l));
    let mut found: Vec<Option<String>> = Vec::new();
    let n = lines.len();
    let mut i: usize = 0;
    while i < n
        invariant
            n == lines.len(),
            all == lines.deep_view().map_values(|l: Seq<char>| artifact_executable(l)),
            i <= n,
            found.deep_view() == all.take(i as int),
        decreases n - i,
    {
        let ghost before = found.deep_view();
        let e = parse_artifact_executable(lines[i].as_str());
        found.push(e);
        assert(found.deep_view() =~= before.push(all[i as int]));
        assert(all.take(i + 1) =~= all.take(i as int).push(all[i as int]));
        i = i + 1;
    }
    assert(all.take(n as int) =~= all);
    last_executable(found)
}

// ---------------------------------------------------------------------------
// What a finished build comes to
// ---------------------------------------------------------------------------

/// Why a build produced nothing to copy.
#[derive(Debug, Clone, Copy, PartialEq, Eq, Structural)]
pub enum BuildError {
    /// Cargo failed without an exit code (it was killed).
    CargoFailed,
    /// Cargo succeeded but named no executable.
    NoExecutable,
}

/// What a finished `cargo build` comes to.
#[derive(Debug, PartialEq, Eq)]
pub enum BuildOutcome {
    /// The build produced this executable.
    Built(String),
    /// Cargo failed with this exit code; the tool exits with it too.
    Exit(i32),
    /// No executable.
    Failed(BuildError),
}

/// Decides what a finished build comes to, from whether cargo succeeded, its
/// exit code, and the executable that its messages named. A failed build
/// never yields an executable.
pub fn build_outcome(success: bool, exit_code: Option<i32>, executable: Option<String>) -> (r: BuildOutcome)
    ensures
        !success ==> match exit_code {
            Some(code) => r == BuildOutcome::Exit(code),
            None => r == BuildOutcome::Failed(BuildError::CargoFailed),
        },
        success ==> match executable {
            Some(path) => r == BuildOutcome::Built(path),
            None => r == BuildOutcome::Failed(BuildError::NoExecutable),
        },
        r is Built ==> success,
{
    if !success {
        match exit_code {
            Some(code) => BuildOutcome::Exit(code),
            None => BuildOutcome::Failed(BuildError::CargoFailed),
        }
    } else {
        match executable {
            Some(path) => BuildOutcome::Built(path),
            None => BuildOutcome::Failed(BuildError::NoExecutable),
        }
    }
}

// ---------------------------------------------------------------------------
// Where the copy goes
// ---------------------------------------------------------------------------

/// The bytes of `run-copy`.
pub open spec fn run_copy_name() -> Seq<u8> {
    seq![114u8, 117u8, 110u8, 45u8, 99u8, 111u8, 112u8, 121u8]
}

/// The bytes of an ASCII text.
pub open spec fn ascii_bytes(s: Seq<char>) -> Seq<u8> {
    Seq::new(s.len(), |i: int| s[i] as u8)
}

/// `target/run-copy/<hash of the contents>/<file name of exe>`, or `None` when
/// `exe` does not end in a file name.
pub open spec fn spec_copy_destination(target: Seq<ComponentModel>, exe: Seq<ComponentModel>, contents: Seq<u8>) -> Option<Seq<ComponentModel>> {
    match file_name(exe) {
        None => None,
        Some(name) => Some(
            target + seq![
                ComponentModel::Normal(run_copy_name()),
                ComponentModel::Normal(ascii_bytes(blake3_hex(contents))),
                ComponentModel::Normal(name),
            ],
        ),
    }
}

/// The copy keeps the executable's whole file name, byte for byte, under
/// `run-copy/<hash>` in the target directory: when `exe` ends in a normal
/// component, the destination is `target`, then `run-copy`, then the lowercase
/// hex digest of the contents, then that very component; otherwise there is no
/// destination.
pub proof fn law_copy_keeps_file_name(target: Seq<ComponentModel>, exe: Seq<ComponentModel>, contents: Seq<u8>)
    ensures
        (exe.len() > 0 && exe.last() is Normal) ==> {
            let d = spec_copy_destination(target, exe, contents);
            &&& d is Some
            &&& d->0.len() == target.len() + 3
            &&& d->0.take(target.len() as int) == target
            &&& d->0[target.len() as int] == ComponentModel::Normal(run_copy_name())
            &&& d->0[target.len() + 1int] == ComponentModel::Normal(ascii_bytes(blake3_hex(contents)))
            &&& d->0.last() == exe.last()
        },
        !(exe.len() > 0 && exe.last() is Normal) ==> spec_copy_destination(target, exe, contents) is None,
{
    if exe.len() > 0 && exe.last() is Normal {
        let d = spec_copy_destination(target, exe, contents)->0;
        assert(d.take(target.len() as int) =~= target);
    }
}


/// under the target directory `target`: a directory named by the hash of the
/// contents, so that each distinct build has its own copy.
pub fn copy_destination(target: &Vec<PathComponent>, exe: &Vec<PathComponent>, contents: &[u8]) -> (r: Option<Vec<PathComponent>>)
    ensures
        r.deep_view() == spec_copy_destination(target.deep_view(), exe.deep_view(), contents@),
{
    let hash = to_hash(contents);
    let found = final_name(exe);
    let name = match found {
        Some(name) => name,
        None => {
            return None;
        },
    };
    assert(name@ == file_name(exe.deep_view())->0);
    let text = hash.as_str();
    let bytes = text.as_bytes();
    proof {
        assert(vstd::string::is_ascii(text));
        vstd::string::is_ascii_spec_bytes(text);
        assert(bytes@ =~= ascii_bytes(hash@));
    }
    let mut hash_bytes: Vec<u8> = Vec::new();
    let mut i: usize = 0;
    while i < bytes.len()
        invariant
            bytes@ == ascii_bytes(hash@),
            i <= bytes.len(),
            hash_bytes@ == bytes@.take(i as int),
        decreases bytes.len() - i,
    {
        hash_bytes.push(bytes[i]);
        assert(hash_bytes@ =~= bytes@.take(i + 1));
        i = i + 1;
    }
    assert(hash_bytes@ =~= ascii_bytes(hash@));
    let mut r = copy_prefix(target, target.len());
    assert(target.deep_view().take(target.len() as int) =~= target.deep_view());
    let ghost base = r.deep_view();
    let run_copy: Vec<u8> = vec![114u8, 117u8, 110u8, 45u8, 99u8, 111u8, 112u8, 121u8];
    assert(run_copy@ =~= run_copy_name());
    r.push(PathComponent::Normal(run_copy));
    assert(r.deep_view() =~= base.push(ComponentModel::Normal(run_copy_name())));
    let ghost r1 = r.deep_view();
    r.push(PathComponent::Normal(hash_bytes));
    assert(r.deep_view() =~= r1.push(ComponentModel::Normal(ascii_bytes(blake3_hex(contents@)))));
    let ghost r2 = r.deep_view();
    let ghost name_view = name@;
    r.push(PathComponent::Normal(name));
    assert(r.deep_view() =~= r2.push(ComponentModel::Normal(name_view)));
    assert(r.deep_view() =~= base + seq![
        ComponentModel::Normal(run_copy_name()),
        ComponentModel::Normal(ascii_bytes(blake3_hex(contents@))),
        ComponentModel::Normal(file_name(exe.deep_view())->0),
    ]);
    Some(r)
}

} // verus!
