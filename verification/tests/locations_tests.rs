use better_remove::locations::{Config, Utils};

#[test]
fn config_holds_trash_path() {
    let c = Config::new(b"/home/user/.local/share/BetterReMove/trash/".to_vec());
    assert_eq!(
        c.path_to_trash,
        b"/home/user/.local/share/BetterReMove/trash/".to_vec()
    );
}

#[test]
fn utils_holds_resolved_locations() {
    let u = Utils::new(
        b"/home/user/.config/BetterReMove/config.toml".to_vec(),
        b"/home/user/.local/share/BetterReMove/trash/".to_vec(),
        b"/home/user/.config/BetterReMove/original_path.toml".to_vec(),
    );
    assert_eq!(u.config_file, b"/home/user/.config/BetterReMove/config.toml".to_vec());
    assert_eq!(u.trash_dir, b"/home/user/.local/share/BetterReMove/trash/".to_vec());
    assert_eq!(
        u.restore_config_file,
        b"/home/user/.config/BetterReMove/original_path.toml".to_vec()
    );
}
