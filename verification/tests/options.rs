use kirbo::commands::install::options::{NewPackage, Notice as InstallNotice, Options as InstallOptions};
use kirbo::commands::run::{script_line, Notice as RunNotice};
use kirbo::options::{Command, Notice, Options};
use kirbo::package_json::Package;

fn args(list: &[&str]) -> Vec<String> {
    list.iter().map(|s| s.to_string()).collect()
}

fn parsed(list: &[&str]) -> Options {
    Options::try_from(&args(list)).unwrap()
}

#[test]
fn no_arguments_means_install() {
    assert_eq!(
        parsed(&[]),
        Options { command: Command::Install, remaining_args: vec![] }
    );
}

#[test]
fn command_names_select_the_command_and_are_dropped() {
    for word in ["add", "install", "i"] {
        assert_eq!(
            parsed(&[word, "left-pad", "-Dx"]),
            Options { command: Command::Install, remaining_args: args(&["left-pad", "-Dx"]) }
        );
    }
    for word in ["run", "run-script"] {
        assert_eq!(
            parsed(&[word, "build"]),
            Options { command: Command::Run, remaining_args: args(&["build"]) }
        );
    }
    for word in ["exec", "x", "--"] {
        assert_eq!(
            parsed(&[word, "prettier", "--check", "."]),
            Options { command: Command::Exec, remaining_args: args(&["prettier", "--check", "."]) }
        );
    }
    assert_eq!(
        parsed(&["run"]),
        Options { command: Command::Run, remaining_args: vec![] }
    );
}

#[test]
fn a_flag_means_install_and_stays() {
    assert_eq!(
        parsed(&["--frozen", "a"]),
        Options { command: Command::Install, remaining_args: args(&["--frozen", "a"]) }
    );
    assert_eq!(
        parsed(&["-Dtypescript"]),
        Options { command: Command::Install, remaining_args: args(&["-Dtypescript"]) }
    );
}

#[test]
fn a_word_means_run_and_stays() {
    assert_eq!(
        parsed(&["build", "--watch"]),
        Options { command: Command::Run, remaining_args: args(&["build", "--watch"]) }
    );
    assert_eq!(
        parsed(&["-"]),
        Options { command: Command::Run, remaining_args: args(&["-"]) }
    );
    assert_eq!(
        parsed(&[""]),
        Options { command: Command::Run, remaining_args: args(&[""]) }
    );
}

#[test]
fn lone_help_and_version_words_give_notices() {
    for word in ["-h", "-help", "--help", "-?", "help"] {
        assert_eq!(Options::try_from(&args(&[word])), Err(Notice::Help));
    }
    for word in ["-v", "-V", "-version", "--version", "version"] {
        assert_eq!(Options::try_from(&args(&[word])), Err(Notice::Version));
    }
}

#[test]
fn help_word_with_company_is_an_argument() {
    assert_eq!(
        parsed(&["--help", "x"]),
        Options { command: Command::Install, remaining_args: args(&["--help", "x"]) }
    );
    assert_eq!(
        parsed(&["help", "x"]),
        Options { command: Command::Run, remaining_args: args(&["help", "x"]) }
    );
    assert_eq!(
        parsed(&["install", "--help"]),
        Options { command: Command::Install, remaining_args: args(&["--help"]) }
    );
}

#[test]
fn install_sorts_packages_into_groups() {
    let options = InstallOptions::try_from(&args(&["react", "-Dtypescript", "-Tjest", "-Ofsevents", "9lives"])).unwrap();
    assert_eq!(
        options.packages_to_add,
        vec![
            NewPackage::Dependency("react".to_string()),
            NewPackage::DevDependency("typescript".to_string()),
            NewPackage::TestDependency("jest".to_string()),
            NewPackage::OptionalDependency("fsevents".to_string()),
            NewPackage::Dependency("9lives".to_string()),
        ]
    );
}

#[test]
fn install_without_arguments_adds_nothing() {
    assert_eq!(
        InstallOptions::try_from(&args(&[])),
        Ok(InstallOptions { packages_to_add: vec![] })
    );
}

#[test]
fn install_passes_over_what_is_neither_name_nor_flag() {
    let options = InstallOptions::try_from(&args(&["@scope/pkg", "", "-", "a", "help"])).unwrap();
    assert_eq!(
        options.packages_to_add,
        vec![
            NewPackage::Dependency("a".to_string()),
            NewPackage::Dependency("help".to_string()),
        ]
    );
}

#[test]
fn install_stops_at_the_first_unrecognized_option() {
    assert_eq!(
        InstallOptions::try_from(&args(&["a", "--frozen", "-x", "b"])),
        Err(InstallNotice::UnrecognizedOption("--frozen".to_string()))
    );
    assert_eq!(
        InstallOptions::try_from(&args(&["-D"])),
        Err(InstallNotice::UnrecognizedOption("-D".to_string()))
    );
    assert_eq!(
        InstallOptions::try_from(&args(&["-D@types/node"])),
        Err(InstallNotice::UnrecognizedOption("-D@types/node".to_string()))
    );
    assert_eq!(
        InstallOptions::try_from(&args(&["-h", "a"])),
        Err(InstallNotice::UnrecognizedOption("-h".to_string()))
    );
}

#[test]
fn install_lone_help_word_gives_help() {
    for word in ["-h", "-help", "--help", "-?", "help"] {
        assert_eq!(InstallOptions::try_from(&args(&[word])), Err(InstallNotice::Help));
    }
}

fn manifest(scripts: &[(&str, &str)]) -> Package {
    Package {
        private: None,
        name: Some("demo".to_string()),
        version: Some("1.0.0".to_string()),
        license: None,
        dependencies: vec![],
        peer_dependencies: vec![],
        dev_dependencies: vec![],
        scripts: scripts.iter().map(|(a, b)| (a.to_string(), b.to_string())).collect(),
    }
}

#[test]
fn script_line_appends_one_parameter_for_each_further_argument() {
    let package = manifest(&[("build", "tsc -p ."), ("test", "jest")]);
    assert_eq!(script_line(&package, &args(&["build"])), Ok("tsc -p .".to_string()));
    assert_eq!(script_line(&package, &args(&["test", "--watch"])), Ok("jest $0".to_string()));
    assert_eq!(
        script_line(&package, &args(&["test", "a", "b", "c"])),
        Ok("jest $0 $1 $2".to_string())
    );
    let many: Vec<String> = (0..12).map(|i| format!("a{i}")).collect();
    let mut all = vec!["test".to_string()];
    all.extend(many);
    assert_eq!(
        script_line(&package, &all),
        Ok("jest $0 $1 $2 $3 $4 $5 $6 $7 $8 $9 $10 $11".to_string())
    );
}

#[test]
fn script_line_without_a_script_gives_a_notice() {
    let package = manifest(&[("build", "tsc")]);
    assert_eq!(script_line(&package, &args(&[])), Err(RunNotice::ListScripts));
    assert_eq!(
        script_line(&package, &args(&["deploy", "x"])),
        Err(RunNotice::NoSuchScript("deploy".to_string()))
    );
}

#[test]
fn script_line_takes_the_last_script_of_a_name() {
    let package = manifest(&[("build", "first"), ("build", "second")]);
    assert_eq!(script_line(&package, &args(&["build"])), Ok("second".to_string()));
}
