use ambientwalrus::startup::{
    command_or_run, example_lines, missing_config_error, missing_config_lines, SubCmd,
};

#[test]
fn running_is_the_default() {
    assert_eq!(command_or_run(None), SubCmd::Run);
    assert_eq!(command_or_run(Some(SubCmd::Run)), SubCmd::Run);
    assert_eq!(command_or_run(Some(SubCmd::Generate)), SubCmd::Generate);
}

#[test]
fn a_user_without_configuration_is_told_where_it_goes() {
    let others = vec!["/etc/xdg/ambientwalrus/config.toml".to_string(), "/b".to_string()];
    assert_eq!(
        missing_config_lines("/home/me/.config/ambientwalrus/config.toml", &others),
        vec![
            "Error: no configuration file found, and no path specified",
            "FYI: searched the following locations without success:",
            "- /home/me/.config/ambientwalrus/config.toml",
            "- /etc/xdg/ambientwalrus/config.toml",
            "- /b",
            "FYI: you can generate an example by running: ambientwalrus generate",
            "FYI: e.g. ambientwalrus generate > /home/me/.config/ambientwalrus/config.toml",
        ]
    );
    assert_eq!(
        missing_config_error(),
        "ensure config is present/readable or override with -f/--config-file"
    );
}

#[test]
fn an_example_is_headed() {
    assert_eq!(
        example_lines("[sensor]"),
        vec!["# Example config generated by `ambientwalrus generate`", "[sensor]"]
    );
}
