use ancestry::install;

fn bytes(s: &str) -> Vec<u8> {
    s.as_bytes().to_vec()
}

#[test]
fn config_to_base_path() {
    for (input, expected) in [
        (
            "/Applications/Xcode.app/Contents/Developer/usr/share/git-core/gitconfig",
            "/Applications/Xcode.app/Contents/Developer/usr/share/git-core",
        ),
        ("C:/git-sdk-64/etc/gitconfig", "C:/git-sdk-64/etc"),
        ("C:\\ProgramData/Git/config", "C:\\ProgramData/Git"),
        ("C:/Program Files/Git/etc/gitconfig", "C:/Program Files/Git/etc"),
    ] {
        assert_eq!(install::config_to_base_path(&bytes(input)), bytes(expected));
    }
}

#[test]
fn first_file_from_config_with_origin() {
    let macos = "file:/Applications/Xcode.app/Contents/Developer/usr/share/git-core/gitconfig\tcredential.helper=osxkeychain\nfile:/Users/byron/.gitconfig\tpush.default=simple\n";
    let win_msys =
        "file:C:/git-sdk-64/etc/gitconfig\tcore.symlinks=false\r\nfile:C:/git-sdk-64/etc/gitconfig\tcore.autocrlf=true";
    let win_cmd = "file:C:/Program Files/Git/etc/gitconfig\tdiff.astextplain.textconv=astextplain\r\nfile:C:/Program Files/Git/etc/gitconfig\tfilter.lfs.clean=gix-lfs clean -- %f\r\n";
    let win_msys_old = "file:\"C:\\ProgramData/Git/config\"\tdiff.astextplain.textconv=astextplain\r\nfile:\"C:\\ProgramData/Git/config\"\tfilter.lfs.clean=git-lfs clean -- %f\r\n";
    let linux = "file:/home/parallels/.gitconfig\tcore.excludesfile=~/.gitignore\n";
    let bogus = "something unexpected";
    let empty = "";

    for (source, expected) in [
        (
            macos,
            Some("/Applications/Xcode.app/Contents/Developer/usr/share/git-core/gitconfig"),
        ),
        (win_msys, Some("C:/git-sdk-64/etc/gitconfig")),
        (win_msys_old, Some("C:\\ProgramData/Git/config")),
        (win_cmd, Some("C:/Program Files/Git/etc/gitconfig")),
        (linux, Some("/home/parallels/.gitconfig")),
        (bogus, None),
        (empty, None),
    ] {
        assert_eq!(
            install::first_file_from_config_with_origin(&bytes(source)),
            expected.map(bytes)
        );
    }
}

#[test]
fn git_alternative_locations() {
    assert!(install::alternative_locations().is_empty());
}

#[test]
fn parent_of_handles_edges() {
    assert_eq!(install::parent_of(&bytes("")), None);
    assert_eq!(install::parent_of(&bytes("/")), None);
    assert_eq!(install::parent_of(&bytes("///")), None);
    assert_eq!(install::parent_of(&bytes("gitconfig")), Some(bytes("")));
    assert_eq!(install::parent_of(&bytes("/gitconfig")), Some(bytes("/")));
    assert_eq!(install::parent_of(&bytes("a/b/")), Some(bytes("a")));
    assert_eq!(install::parent_of(&bytes("a//b")), Some(bytes("a")));
}

#[test]
fn alternative_locations_from_env_keeps_distinct_values_in_order() {
    let a = bytes("C:/Program Files");
    let b = bytes("C:/Program Files (x86)");
    let candidates = vec![
        Some(a.clone()),
        Some(b.clone()),
        Some(a.clone()),
        None,
        Some(b.clone()),
    ];
    assert_eq!(
        install::alternative_locations_from_env(&candidates),
        vec![a, b]
    );
}

#[test]
fn alternative_locations_from_env_of_nothing_is_empty() {
    assert_eq!(
        install::alternative_locations_from_env(&vec![None, None, None]),
        Vec::<Vec<u8>>::new()
    );
}
