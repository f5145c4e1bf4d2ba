//! Where the installer finds the program, where it puts it, and where it puts
//! the files of the model.
use vstd::prelude::*;
use vstd::string::{StrSliceExecFns, StringExecFns};

verus! {

/// The directory at the root of the archive with the files of the model.
pub const ARCHIVE_ROOT: &'static str = "GAME-1.0.3-large-onnx";

/// The directory that takes its place when the archive is unpacked.
pub const INSTALLED_ROOT: &'static str = "GAME-1.0-large-onnx";

/// The directory into which the archive is unpacked, in the one for the program.
pub const CHECKPOINTS: &'static str = "checkpoints";

/// Where the program looks for a model when it is not told.
pub const DEFAULT_MODEL_DIR: &'static str = "checkpoints/GAME-1.0-large-onnx";

/// What stands in front of the directory in the command that extends the path.
pub const PATH_COMMAND_LOOKUP: &'static str =
    "$oldPath = [Environment]::GetEnvironmentVariable('Path', 'User'); if (-not $oldPath.Split(';').Contains('";

/// What stands between the two mentions of the directory in that command.
pub const PATH_COMMAND_EXTEND: &'static str = "')) { $newPath = \"$oldPath;";

/// What stands behind the directory in that command.
pub const PATH_COMMAND_STORE: &'static str =
    "\"; [Environment]::SetEnvironmentVariable('Path', $newPath, 'User'); write-host 'Successfully added to user PATH.'; } else { write-host 'Directory is already in user PATH.'; }";

/// A family of operating systems.
#[derive(Clone, Copy, PartialEq, Eq, Structural, Debug)]
pub enum Platform {
    Windows,
    MacOs,
    Linux,
}

/// A place where the program to install may lie.
#[derive(Debug)]
pub struct Candidate {
    /// Whether the path starts at the directory of the installer rather than at
    /// the current directory.
    pub beside_installer: bool,
    pub path: String,
}

/// What to do with an entry of the archive, at a path below the directory into
/// which it is unpacked.
#[derive(Debug)]
pub enum Unpack {
    CreateDirectory { path: String },
    WriteFile { path: String },
}

impl View for Candidate {
    type V = (bool, Seq<char>);

    open spec fn view(&self) -> (bool, Seq<char>) {
        (self.beside_installer, self.path@)
    }
}

impl Platform {
    /// The name of the installed program.
    pub open spec fn exe_name_spec(self) -> Seq<char> {
        match self {
            Platform::Windows => "game_rs.exe"@,
            _ => "game_rs"@,
        }
    }

    /// The names under which the program may be delivered, in the order in which
    /// they are looked for.
    pub open spec fn delivered_names(self) -> Seq<Seq<char>> {
        match self {
            Platform::Windows => seq![
                "executables/game_rs.exe"@,
                "executables/game_rs_windows.exe"@,
            ],
            Platform::MacOs => seq!["executables/game_rs_mac"@, "executables/game_rs"@],
            Platform::Linux => seq!["executables/game_rs_linux"@, "executables/game_rs"@],
        }
    }

    /// Where the program may have been built.
    pub open spec fn built_path(self) -> Seq<char> {
        match self {
            Platform::Windows => "target/release/game_rs.exe"@,
            _ => "target/release/game_rs"@,
        }
    }

    /// Where the program to install may lie, in the order in which to look:
    /// delivered beside the installer, delivered in the current directory, in
    /// that directory itself, and where it is built.
    pub open spec fn candidates_spec(self) -> Seq<(bool, Seq<char>)> {
        seq![
            (true, self.delivered_names()[0]),
            (true, self.delivered_names()[1]),
            (false, self.delivered_names()[0]),
            (false, self.delivered_names()[1]),
            (false, self.exe_name_spec()),
            (false, self.built_path()),
        ]
    }

    /// The name of the installed program.
    pub fn exe_name(self) -> (name: &'static str)
        ensures
            name@ == self.exe_name_spec(),
    {
        match self {
            Platform::Windows => "game_rs.exe",
            _ => "game_rs",
        }
    }

    /// Where the program to install may lie, in the order in which to look.
    pub fn binary_candidates(self) -> (candidates: Vec<Candidate>)
        ensures
            candidates@.map_values(|candidate: Candidate| candidate@) == self.candidates_spec(),
    {
        let (first, second): (&'static str, &'static str) = match self {
            Platform::Windows => ("executables/game_rs.exe", "executables/game_rs_windows.exe"),
            Platform::MacOs => ("executables/game_rs_mac", "executables/game_rs"),
            Platform::Linux => ("executables/game_rs_linux", "executables/game_rs"),
        };
        let built: &'static str = match self {
            Platform::Windows => "target/release/game_rs.exe",
            _ => "target/release/game_rs",
        };
        let mut candidates: Vec<Candidate> = Vec::new();
        candidates.push(candidate(true, first));
        candidates.push(candidate(true, second));
        candidates.push(candidate(false, first));
        candidates.push(candidate(false, second));
        candidates.push(candidate(false, self.exe_name()));
        candidates.push(candidate(false, built));
        proof {
            assert(candidates@.map_values(|candidate: Candidate| candidate@)
                =~= self.candidates_spec());
        }
        candidates
    }

    /// What to say where the program lies at none of those places.
    pub fn missing_binary_message(self) -> (message: &'static str)
        ensures
            message@ == match self {
                Platform::Windows =>
                    "Pre-built binary (game_rs.exe or game_rs_windows.exe) not found in standard locations."@,
                Platform::MacOs =>
                    "Pre-built binary (game_rs_mac or game_rs) not found in standard locations."@,
                Platform::Linux =>
                    "Pre-built binary (game_rs_linux or game_rs) not found in standard locations."@,
            },
    {
        match self {
            Platform::Windows =>
                "Pre-built binary (game_rs.exe or game_rs_windows.exe) not found in standard locations.",
            Platform::MacOs =>
                "Pre-built binary (game_rs_mac or game_rs) not found in standard locations.",
            Platform::Linux =>
                "Pre-built binary (game_rs_linux or game_rs) not found in standard locations.",
        }
    }

    /// The variable that holds the home directory.
    pub fn home_variable(self) -> (name: &'static str)
        ensures
            name@ == match self {
                Platform::Windows => "USERPROFILE"@,
                _ => "HOME"@,
            },
    {
        match self {
            Platform::Windows => "USERPROFILE",
            _ => "HOME",
        }
    }

    /// The directory for the program, below the home directory.
    pub fn install_dir(self) -> (path: &'static str)
        ensures
            path@ == match self {
                Platform::Windows => ".game_rs"@,
                _ => ".local/share/game_rs"@,
            },
    {
        match self {
            Platform::Windows => ".game_rs",
            _ => ".local/share/game_rs",
        }
    }

    /// The directory for a link to the program, below the home directory, where
    /// the platform has one. Elsewhere the path is extended instead.
    pub fn link_dir(self) -> (path: Option<&'static str>)
        ensures
            match path {
                Some(path) => !(self is Windows) && path@ == ".local/bin"@,
                None => self is Windows,
            },
    {
        match self {
            Platform::Windows => None,
            _ => Some(".local/bin"),
        }
    }
}

/// A place where the program may lie.
fn candidate(beside_installer: bool, path: &str) -> (candidate: Candidate)
    ensures
        candidate@ == (beside_installer, path@),
{
    Candidate { beside_installer, path: path.to_string() }
}

/// The first place at which something was found.
pub fn first_found(found: &Vec<bool>) -> (index: Option<usize>)
    ensures
        match index {
            Some(index) => {
                &&& index < found@.len()
                &&& found@[index as int]
                &&& forall|i: int| 0 <= i < index ==> !(#[trigger] found@[i])
            },
            None => forall|i: int| 0 <= i < found@.len() ==> !(#[trigger] found@[i]),
        },
{
    let mut index: usize = 0;
    while index < found.len()
        invariant
            index <= found@.len(),
            forall|i: int| 0 <= i < index ==> !(#[trigger] found@[i]),
        decreases found@.len() - index,
    {
        if found[index] {
            return Some(index);
        }
        index = index + 1;
    }
    None
}

/// Whether a path is a directory, or lies below it.
pub open spec fn is_within(path: Seq<char>, directory: Seq<char>) -> bool {
    path == directory || directory.push('/').is_prefix_of(path)
}

/// The name of an entry of the archive with the root directory renamed.
pub open spec fn normalized(name: Seq<char>) -> Seq<char> {
    if is_within(name, ARCHIVE_ROOT@) {
        INSTALLED_ROOT@ + name.skip(ARCHIVE_ROOT@.len() as int)
    } else {
        name
    }
}

/// The name of an entry of the archive with the root directory renamed. Names
/// elsewhere stay as they are.
pub fn normalize_entry(name: &str) -> (result: String)
    ensures
        result@ == normalized(name@),
{
    let root: String = ARCHIVE_ROOT.to_string();
    let root_length: usize = ARCHIVE_ROOT.unicode_len();
    let length: usize = name.unicode_len();
    if length < root_length {
        return name.to_string();
    }
    let front: String = name.substring_char(0, root_length).to_string();
    let back: &str = name.substring_char(root_length, length);
    if front == root && (length == root_length || name.get_char(root_length) == '/') {
        proof {
            assert(name@ =~= front@ + back@);
            if length == root_length {
                assert(name@ =~= ARCHIVE_ROOT@);
            } else {
                assert(ARCHIVE_ROOT@.push('/').is_prefix_of(name@));
            }
        }
        INSTALLED_ROOT.to_string().concat(back)
    } else {
        proof {
            if ARCHIVE_ROOT@.push('/').is_prefix_of(name@) {
                assert(name@.take(root_length as int) =~= ARCHIVE_ROOT@);
                assert(name@.subrange(0, root_length + 1)[root_length as int] == '/');
            }
            if name@ == ARCHIVE_ROOT@ {
                assert(front@ =~= ARCHIVE_ROOT@);
            }
        }
        name.to_string()
    }
}

/// What to do with an entry of the archive.
pub fn unpack_entry(name: &str, is_dir: bool) -> (step: Unpack)
    ensures
        match step {
            Unpack::CreateDirectory { path } => is_dir && path@ == normalized(name@),
            Unpack::WriteFile { path } => !is_dir && path@ == normalized(name@),
        },
{
    let path: String = normalize_entry(name);
    if is_dir {
        Unpack::CreateDirectory { path }
    } else {
        Unpack::WriteFile { path }
    }
}

/// A path with backslashes in place of slashes.
pub open spec fn backslashed(path: Seq<char>) -> Seq<char> {
    path.map_values(
        |c: char|
            if c == '/' {
                '\\'
            } else {
                c
            },
    )
}

/// The command that appends a directory to the path of a Windows user, unless it
/// is there.
pub open spec fn path_command(directory: Seq<char>) -> Seq<char> {
    PATH_COMMAND_LOOKUP@ + backslashed(directory) + PATH_COMMAND_EXTEND@ + backslashed(directory)
        + PATH_COMMAND_STORE@
}

/// A path with backslashes in place of slashes.
pub fn with_backslashes(path: &str) -> (result: String)
    ensures
        result@ == backslashed(path@),
{
    let mut result: String = String::new();
    let length: usize = path.unicode_len();
    let mut i: usize = 0;
    proof {
        reveal_strlit("\\");
        assert(backslashed(path@.take(0)) =~= Seq::empty());
    }
    while i < length
        invariant
            i <= length,
            length == path@.len(),
            "\\"@ == seq!['\\'],
            result@ == backslashed(path@.take(i as int)),
        decreases length - i,
    {
        let here: &str = path.substring_char(i, i + 1);
        if path.get_char(i) == '/' {
            result.append("\\");
        } else {
            result.append(here);
        }
        proof {
            assert(here@ =~= seq![path@[i as int]]);
            assert(path@.take(i + 1) =~= path@.take(i as int).push(path@[i as int]));
            assert(result@ =~= backslashed(path@.take(i + 1)));
        }
        i = i + 1;
    }
    proof {
        assert(path@.take(i as int) =~= path@);
    }
    result
}

/// The command that appends a directory to the path of a Windows user, unless it
/// is there.
pub fn path_update_command(directory: &str) -> (command: String)
    ensures
        command@ == path_command(directory@),
{
    let written: String = with_backslashes(directory);
    let mut command: String = PATH_COMMAND_LOOKUP.to_string();
    command.append(written.as_str());
    command.append(PATH_COMMAND_EXTEND);
    command.append(written.as_str());
    command.append(PATH_COMMAND_STORE);
    command
}

/// Nothing is left below the root directory of the archive.
pub proof fn lemma_archive_root_is_gone(name: Seq<char>)
    ensures
        !is_within(normalized(name), ARCHIVE_ROOT@),
{
    reveal_strlit("GAME-1.0.3-large-onnx");
    reveal_strlit("GAME-1.0-large-onnx");
    let result = normalized(name);
    if is_within(name, ARCHIVE_ROOT@) {
        assert(result[8] == '-');
        assert(ARCHIVE_ROOT@[8] == '.');
        if ARCHIVE_ROOT@.push('/').is_prefix_of(result) {
            assert(ARCHIVE_ROOT@.push('/')[8] == result[8]);
        }
    }
}

/// Renaming twice is renaming once.
pub proof fn lemma_normalizing_twice(name: Seq<char>)
    ensures
        normalized(normalized(name)) == normalized(name),
{
    lemma_archive_root_is_gone(name);
}

/// What the archive holds below its root directory is installed where the
/// program looks for a model when it is not told.
pub proof fn lemma_model_is_installed_where_it_is_looked_for(rest: Seq<char>)
    ensures
        CHECKPOINTS@.push('/') + normalized(ARCHIVE_ROOT@.push('/') + rest)
            == DEFAULT_MODEL_DIR@.push('/') + rest,
        CHECKPOINTS@ == "checkpoints"@,
        DEFAULT_MODEL_DIR@ == "checkpoints/GAME-1.0-large-onnx"@,
{
    reveal_strlit("GAME-1.0-large-onnx");
    reveal_strlit("checkpoints");
    reveal_strlit("checkpoints/GAME-1.0-large-onnx");
    let name = ARCHIVE_ROOT@.push('/') + rest;
    assert(ARCHIVE_ROOT@.push('/').is_prefix_of(name));
    assert(name.skip(ARCHIVE_ROOT@.len() as int) =~= seq!['/'] + rest);
    assert(DEFAULT_MODEL_DIR@ =~= CHECKPOINTS@.push('/') + INSTALLED_ROOT@);
    assert(CHECKPOINTS@.push('/') + normalized(name) =~= DEFAULT_MODEL_DIR@.push('/') + rest);
}

/// Whatever lies below the root of the archive keeps its place below the new root,
/// and the root itself becomes the new one.
pub proof fn lemma_what_lies_below_the_root_keeps_its_place(rest: Seq<char>)
    ensures
        normalized("GAME-1.0.3-large-onnx/"@ + rest) == "GAME-1.0-large-onnx/"@ + rest,
        normalized("GAME-1.0.3-large-onnx"@) == "GAME-1.0-large-onnx"@,
{
    reveal_strlit("GAME-1.0.3-large-onnx/");
    reveal_strlit("GAME-1.0.3-large-onnx");
    reveal_strlit("GAME-1.0-large-onnx/");
    reveal_strlit("GAME-1.0-large-onnx");
    let name = "GAME-1.0.3-large-onnx/"@ + rest;
    assert("GAME-1.0.3-large-onnx/"@ =~= ARCHIVE_ROOT@.push('/'));
    assert("GAME-1.0-large-onnx/"@ =~= INSTALLED_ROOT@.push('/'));
    assert(ARCHIVE_ROOT@.push('/').is_prefix_of(name));
    assert(name.skip(ARCHIVE_ROOT@.len() as int) =~= seq!['/'] + rest);
    assert(normalized(name) =~= "GAME-1.0-large-onnx/"@ + rest);
    assert(ARCHIVE_ROOT@.skip(ARCHIVE_ROOT@.len() as int) =~= Seq::empty());
    assert(normalized(ARCHIVE_ROOT@) =~= INSTALLED_ROOT@);
}

/// Names elsewhere stay as they are.
pub proof fn lemma_names_elsewhere_stay(name: Seq<char>)
    requires
        name != "GAME-1.0.3-large-onnx"@,
        !"GAME-1.0.3-large-onnx/"@.is_prefix_of(name),
    ensures
        normalized(name) == name,
{
    reveal_strlit("GAME-1.0.3-large-onnx/");
    reveal_strlit("GAME-1.0.3-large-onnx");
    assert("GAME-1.0.3-large-onnx/"@ =~= ARCHIVE_ROOT@.push('/'));
}

/// A path with backslashes is as long as the path and differs from it only where
/// the path has a slash.
pub proof fn lemma_only_slashes_change(path: Seq<char>, i: int)
    requires
        0 <= i < path.len(),
    ensures
        backslashed(path).len() == path.len(),
        path[i] == '/' ==> backslashed(path)[i] == '\\',
        path[i] != '/' ==> backslashed(path)[i] == path[i],
{
}

/// Joined paths have backslashes in each part.
pub proof fn lemma_joined_paths_change_in_each_part(one: Seq<char>, other: Seq<char>)
    ensures
        backslashed(one + other) == backslashed(one) + backslashed(other),
{
    assert(backslashed(one + other) =~= backslashed(one) + backslashed(other));
}

/// The command looks the directory up in the path and appends that same directory
/// to it, with backslashes both times and nothing else that depends on it.
pub proof fn lemma_command_names_the_directory_twice(directory: Seq<char>)
    ensures
        path_command(directory)
            == "$oldPath = [Environment]::GetEnvironmentVariable('Path', 'User'); if (-not $oldPath.Split(';').Contains('"@
            + backslashed(directory) + "')) { $newPath = \"$oldPath;"@ + backslashed(directory)
            + "\"; [Environment]::SetEnvironmentVariable('Path', $newPath, 'User'); write-host 'Successfully added to user PATH.'; } else { write-host 'Directory is already in user PATH.'; }"@,
{
}

/// Where the program may lie: on every platform it is looked for under two names
/// beside the installer, then under the same names in the current directory, then
/// under its installed name there, and at last where it is built.
pub proof fn lemma_where_the_program_may_lie(platform: Platform)
    ensures
        platform.candidates_spec().len() == 6,
        forall|i: int| 0 <= i < 6 ==> (#[trigger] platform.candidates_spec()[i]).0 == (i < 2),
        platform.candidates_spec()[2].1 == platform.candidates_spec()[0].1,
        platform.candidates_spec()[3].1 == platform.candidates_spec()[1].1,
        platform.candidates_spec()[4].1 == platform.exe_name_spec(),
        platform.candidates_spec()[5].1 == if platform is Windows {
            "target/release/game_rs.exe"@
        } else {
            "target/release/game_rs"@
        },
        platform.exe_name_spec() == if platform is Windows {
            "game_rs.exe"@
        } else {
            "game_rs"@
        },
        platform.candidates_spec()[0].1 == match platform {
            Platform::Windows => "executables/game_rs.exe"@,
            Platform::MacOs => "executables/game_rs_mac"@,
            Platform::Linux => "executables/game_rs_linux"@,
        },
        platform.candidates_spec()[1].1 == match platform {
            Platform::Windows => "executables/game_rs_windows.exe"@,
            Platform::MacOs => "executables/game_rs"@,
            Platform::Linux => "executables/game_rs"@,
        },
{
}

/// A place is known by where its path starts and by the path.
pub proof fn lemma_place_is_known_by_its_path(place: Candidate)
    ensures
        place@ == (place.beside_installer, place.path@),
{
}

} // verus!
