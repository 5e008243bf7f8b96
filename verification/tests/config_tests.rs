use dotfiler::config::{
    create_templates, get_scripts_path, get_templates_path, template_exists_already, Dotfile,
};
use dotfiler::error::DotfilerError;

fn mapping(template: &str, target: &str) -> Dotfile {
    Dotfile { template: template.to_string(), target: target.to_string() }
}

#[test]
fn sibling_directories_sit_beside_the_configuration_file() {
    assert_eq!(get_templates_path("/home/u/config.toml"), "/home/u/templates");
    assert_eq!(get_scripts_path("/home/u/config.toml"), "/home/u/scripts");
    assert_eq!(get_templates_path("/config.toml"), "/templates");
    assert_eq!(get_templates_path("config.toml"), "templates");
}

#[test]
fn template_exists_already_finds_the_first_collision() {
    let dotfiles = vec![
        mapping("/t/xresources", "/home/u/.Xresources"),
        mapping("/t/zshrc", "/home/u/.zshrc"),
        mapping("/t/vimrc", "/home/u/.vimrc"),
    ];
    assert_eq!(
        template_exists_already(&dotfiles, "/t/zshrc", "/elsewhere"),
        Some(1)
    );
    assert_eq!(
        template_exists_already(&dotfiles, "/t/new", "/home/u/.vimrc"),
        Some(2)
    );
    assert_eq!(
        template_exists_already(&dotfiles, "/t/new", "/home/u/.bashrc"),
        None
    );
    // the template collision at 0 wins over the target collision at 2
    assert_eq!(
        template_exists_already(&dotfiles, "/t/xresources", "/home/u/.vimrc"),
        Some(0)
    );
}

#[test]
fn create_templates_plans_one_step_per_mapping() {
    let dotfiles = vec![
        mapping("zshrc", "/home/u/.zshrc"),
        mapping("db.sqlite", "/home/u/db.sqlite"),
    ];
    let flags = vec![false, true];
    let steps = create_templates("/home/u/config.toml", &dotfiles, &flags).unwrap();
    assert_eq!(steps.len(), 2);
    assert_eq!(steps[0].source, "/home/u/templates/zshrc");
    assert_eq!(steps[0].target, "/home/u/.zshrc");
    assert!(!steps[0].is_db);
    assert_eq!(steps[1].source, "/home/u/templates/db.sqlite");
    assert_eq!(steps[1].target, "/home/u/db.sqlite");
    assert!(steps[1].is_db);
}

#[test]
fn create_templates_rejects_a_root_configuration_path() {
    let dotfiles = vec![mapping("a", "/a")];
    let flags = vec![false];
    assert!(matches!(
        create_templates("/", &dotfiles, &flags),
        Err(DotfilerError::BuildFailure(_))
    ));
    assert!(matches!(
        create_templates("", &dotfiles, &flags),
        Err(DotfilerError::BuildFailure(_))
    ));
}
