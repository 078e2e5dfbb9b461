use ccmv::encoder::encode;
use ccmv::path::FilePath;

fn p(text: &str) -> FilePath {
    FilePath::new(text)
}

#[test]
fn encode_simple_path() {
    assert_eq!(
        encode(&p("/home/user/project")).unwrap(),
        "-home-user-project"
    );
}

#[test]
fn encode_path_with_dots() {
    assert_eq!(
        encode(&p("/home/user/github.com/repo")).unwrap(),
        "-home-user-github-com-repo"
    );
}

#[test]
fn encode_double_hyphen_from_dot_slash() {
    // /.config → --config (/ becomes -, . becomes -)
    assert_eq!(
        encode(&p("/home/user/dotfiles/.config/hypr")).unwrap(),
        "-home-user-dotfiles--config-hypr"
    );
}

#[test]
fn encode_trailing_slash_stripped() {
    assert_eq!(
        encode(&p("/home/user/project/")).unwrap(),
        "-home-user-project"
    );
}

#[test]
fn encode_rejects_relative_path() {
    assert!(encode(&p("relative/path")).is_err());
}

#[test]
fn encode_root_path() {
    assert_eq!(encode(&p("/")).unwrap(), "-");
}

// Verified against real system data
#[test]
fn encode_real_path_dotfiles_atuin() {
    assert_eq!(
        encode(&p("/home/sebflu/dotfiles/atuin")).unwrap(),
        "-home-sebflu-dotfiles-atuin"
    );
}

#[test]
fn encode_real_path_with_nested_dots() {
    // underscores also become hyphens (verified against real data)
    assert_eq!(
        encode(&p("/home/sebflu/dotfiles/hypr_env4/.config/hypr")).unwrap(),
        "-home-sebflu-dotfiles-hypr-env4--config-hypr"
    );
}

#[test]
fn encode_underscores_replaced() {
    // Verified: ~/.data/projects/ contains -home-sebflu-scratchpad-research-neovim-excalidraw-integration
    // NOT -home-sebflu-scratchpad-research-neovim_excalidraw_integration
    assert_eq!(
        encode(&p(
            "/home/sebflu/scratchpad/research/neovim_excalidraw_integration"
        ))
        .unwrap(),
        "-home-sebflu-scratchpad-research-neovim-excalidraw-integration"
    );
}
