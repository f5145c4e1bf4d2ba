use game_rs::install::{
    first_found, normalize_entry, path_update_command, unpack_entry, with_backslashes, Platform,
    Unpack, CHECKPOINTS, DEFAULT_MODEL_DIR,
};

fn places(platform: Platform) -> Vec<(bool, String)> {
    platform.binary_candidates().into_iter().map(|c| (c.beside_installer, c.path)).collect()
}

fn expected(names: [&str; 6]) -> Vec<(bool, String)> {
    names.iter().enumerate().map(|(i, name)| (i < 2, name.to_string())).collect()
}

#[test]
fn where_the_program_may_lie() {
    assert_eq!(
        places(Platform::Linux),
        expected([
            "executables/game_rs_linux",
            "executables/game_rs",
            "executables/game_rs_linux",
            "executables/game_rs",
            "game_rs",
            "target/release/game_rs",
        ])
    );
    assert_eq!(
        places(Platform::MacOs),
        expected([
            "executables/game_rs_mac",
            "executables/game_rs",
            "executables/game_rs_mac",
            "executables/game_rs",
            "game_rs",
            "target/release/game_rs",
        ])
    );
    assert_eq!(
        places(Platform::Windows),
        expected([
            "executables/game_rs.exe",
            "executables/game_rs_windows.exe",
            "executables/game_rs.exe",
            "executables/game_rs_windows.exe",
            "game_rs.exe",
            "target/release/game_rs.exe",
        ])
    );
}

#[test]
fn where_the_program_goes() {
    assert_eq!(Platform::Linux.exe_name(), "game_rs");
    assert_eq!(Platform::MacOs.exe_name(), "game_rs");
    assert_eq!(Platform::Windows.exe_name(), "game_rs.exe");
    assert_eq!(Platform::Linux.home_variable(), "HOME");
    assert_eq!(Platform::Windows.home_variable(), "USERPROFILE");
    assert_eq!(Platform::MacOs.install_dir(), ".local/share/game_rs");
    assert_eq!(Platform::Windows.install_dir(), ".game_rs");
    assert_eq!(Platform::Linux.link_dir(), Some(".local/bin"));
    assert_eq!(Platform::Windows.link_dir(), None);
}

#[test]
fn what_to_say_without_the_program() {
    assert_eq!(
        Platform::Windows.missing_binary_message(),
        "Pre-built binary (game_rs.exe or game_rs_windows.exe) not found in standard locations."
    );
    assert_eq!(
        Platform::MacOs.missing_binary_message(),
        "Pre-built binary (game_rs_mac or game_rs) not found in standard locations."
    );
    assert_eq!(
        Platform::Linux.missing_binary_message(),
        "Pre-built binary (game_rs_linux or game_rs) not found in standard locations."
    );
}

#[test]
fn the_first_place_wins() {
    assert_eq!(first_found(&vec![false, true, true]), Some(1));
    assert_eq!(first_found(&vec![false, false]), None);
    assert_eq!(first_found(&vec![]), None);
}

#[test]
fn the_archive_root_is_renamed() {
    assert_eq!(
        normalize_entry("GAME-1.0.3-large-onnx/config.json"),
        "GAME-1.0-large-onnx/config.json"
    );
    assert_eq!(normalize_entry("GAME-1.0.3-large-onnx/"), "GAME-1.0-large-onnx/");
    assert_eq!(normalize_entry("GAME-1.0.3-large-onnx"), "GAME-1.0-large-onnx");
    assert_eq!(
        normalize_entry("GAME-1.0.3-large-onnx/GAME-1.0.3-large-onnx/a"),
        "GAME-1.0-large-onnx/GAME-1.0.3-large-onnx/a"
    );
}

#[test]
fn other_names_stay() {
    for name in [
        "",
        "GAME",
        "GAME-1.0.3-large-onnx2/a",
        "GAME-1.0.3-large-onnx.zip",
        "a/GAME-1.0.3-large-onnx/b",
        "größe/ä",
    ] {
        assert_eq!(normalize_entry(name), name);
    }
}

#[test]
fn renaming_twice_is_renaming_once() {
    let once = normalize_entry("GAME-1.0.3-large-onnx/ü/encoder.onnx");
    assert_eq!(once, "GAME-1.0-large-onnx/ü/encoder.onnx");
    assert_eq!(normalize_entry(&once), once);
}

#[test]
fn the_model_is_installed_where_it_is_looked_for() {
    assert_eq!(
        format!("{}/{}", CHECKPOINTS, normalize_entry("GAME-1.0.3-large-onnx/bd2dur.onnx")),
        format!("{}/bd2dur.onnx", DEFAULT_MODEL_DIR)
    );
}

#[test]
fn entries_are_directories_or_files() {
    assert!(matches!(
        unpack_entry("GAME-1.0.3-large-onnx/", true),
        Unpack::CreateDirectory { path } if path == "GAME-1.0-large-onnx/"
    ));
    assert!(matches!(
        unpack_entry("x/y", false),
        Unpack::WriteFile { path } if path == "x/y"
    ));
}

#[test]
fn the_command_that_extends_the_path() {
    assert_eq!(with_backslashes("C:/Users/é/.game_rs"), "C:\\Users\\é\\.game_rs");
    assert_eq!(
        path_update_command("C:/a"),
        "$oldPath = [Environment]::GetEnvironmentVariable('Path', 'User'); \
         if (-not $oldPath.Split(';').Contains('C:\\a')) { \
         $newPath = \"$oldPath;C:\\a\"; \
         [Environment]::SetEnvironmentVariable('Path', $newPath, 'User'); \
         write-host 'Successfully added to user PATH.'; \
         } else { \
         write-host 'Directory is already in user PATH.'; \
         }"
    );
}
