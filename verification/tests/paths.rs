use rshell::paths::{
    destination, expand_tilde, find_executable_in_path, find_executables_in_path_matching,
    find_files_matching, is_executable, probe_dirs, resolve_relative_path, search_dirs,
    Destination, Move, ProgramEntry,
};

fn entry(name: &str, is_file: bool, mode: Option<u32>) -> ProgramEntry {
    ProgramEntry { name: name.to_string(), is_file, mode }
}

#[test]
fn permissions() {
    assert!(is_executable(Some(0o755)));
    assert!(is_executable(Some(0o100)));
    assert!(is_executable(Some(0o010)));
    assert!(is_executable(Some(0o001)));
    assert!(!is_executable(Some(0o644)));
    assert!(!is_executable(Some(0)));
    assert!(!is_executable(None));
}

#[test]
fn directories_to_search() {
    assert_eq!(search_dirs("/bin::/usr/bin:", ':'), ["/bin", "/usr/bin"]);
    assert!(search_dirs("", ':').is_empty());
    assert_eq!(probe_dirs("/bin::/usr/bin:", ':'), ["/bin", "", "/usr/bin", ""]);
    assert_eq!(probe_dirs("", ':'), [""]);
}

#[test]
fn programs_are_listed_once_and_in_order() {
    let entries = vec![
        entry("git", true, Some(0o755)),
        entry("gcc", true, Some(0o755)),
        entry("git", true, Some(0o755)),
        entry("gdb", true, Some(0o644)),
        entry("go", false, Some(0o755)),
        entry("gone", true, None),
        entry("ls", true, Some(0o755)),
    ];
    assert_eq!(find_executables_in_path_matching("g", &entries), ["gcc", "git"]);
    assert_eq!(find_executables_in_path_matching("", &entries), ["gcc", "git", "ls"]);
    assert!(find_executables_in_path_matching("x", &entries).is_empty());
}

#[test]
fn the_first_program_counts() {
    let probed = vec![
        ("/a/x".to_string(), None),
        ("/b/x".to_string(), Some(0o644)),
        ("/c/x".to_string(), Some(0o755)),
        ("/d/x".to_string(), Some(0o755)),
    ];
    assert_eq!(find_executable_in_path(&probed), Some("/c/x".to_string()));
    assert_eq!(find_executable_in_path(&probed[..2]), None);
    assert_eq!(find_executable_in_path(&[]), None);
}

#[test]
fn files_with_a_prefix() {
    let entries = vec![
        ("b.txt".to_string(), false),
        ("..".to_string(), true),
        (".".to_string(), true),
        ("bin".to_string(), true),
        ("a".to_string(), false),
        (".b".to_string(), false),
    ];
    assert_eq!(
        find_files_matching("b", &entries),
        vec![("b.txt".to_string(), false), ("bin".to_string(), true)]
    );
    assert_eq!(find_files_matching(".", &entries), vec![(".b".to_string(), false)]);
    assert_eq!(find_files_matching("", &entries).len(), 4);
}

fn steps(target: &str) -> Vec<String> {
    let mut out = Vec::new();
    for m in resolve_relative_path(target) {
        out.push(match m {
            Move::Up => "up".to_string(),
            Move::Down(name) => format!("down {}", name),
        });
    }
    out
}

#[test]
fn relative_paths() {
    assert!(steps("").is_empty());
    assert!(steps(".").is_empty());
    assert!(steps("/").is_empty());
    assert_eq!(steps(".."), ["up"]);
    assert_eq!(steps("../../.."), ["up", "up", "up"]);
    assert_eq!(steps("a//./b/"), ["down a", "down b"]);
    assert_eq!(steps("a/.."), ["down a", "up"]);
    assert_eq!(steps("a/../../b"), ["down a", "up", "up", "down b"]);
    assert_eq!(steps("..."), ["down ..."]);
    assert_eq!(steps("a\\b"), ["down a\\b"]);
}

#[test]
fn steps_lead_to_places() {
    let reach = |place: &[&str], target: &str| {
        let mut names: Vec<String> = place.iter().map(|s| s.to_string()).collect();
        for m in resolve_relative_path(target) {
            match m {
                Move::Up => {
                    names.pop();
                }
                Move::Down(name) => names.push(name),
            }
        }
        names
    };
    assert_eq!(reach(&["home", "me"], "x/.."), ["home", "me"]);
    assert_eq!(reach(&["home", "me"], "../you/./y"), ["home", "you", "y"]);
    assert!(reach(&["home"], "../../..").is_empty());
}

#[test]
fn following_two_paths_in_turn() {
    let mut both = steps("../x");
    both.extend(steps("../y"));
    assert_eq!(both, steps("../x/../y"));
}

#[test]
fn a_longer_prefix_narrows_the_choice() {
    let entries = vec![entry("git", true, Some(0o755)), entry("gcc", true, Some(0o755))];
    assert_eq!(find_executables_in_path_matching("g", &entries), ["gcc", "git"]);
    assert_eq!(find_executables_in_path_matching("gi", &entries), ["git"]);
    let files = vec![("b2".to_string(), true), ("a".to_string(), false), ("b1".to_string(), false)];
    let wide = find_files_matching("", &files);
    let narrow = find_files_matching("b", &files);
    let picked: Vec<(String, bool)> =
        wide.into_iter().filter(|(name, _)| name.starts_with("b")).collect();
    assert_eq!(narrow, picked);
}

#[test]
fn tildes() {
    let home = Some("/home/me".to_string());
    assert_eq!(expand_tilde("~", &home), "/home/me");
    assert_eq!(expand_tilde("~/a", &home), "/home/me/a");
    assert_eq!(expand_tilde("~you", &home), "~you");
    assert_eq!(expand_tilde("a~", &home), "a~");
    assert_eq!(expand_tilde("~", &None), "~");
    assert_eq!(expand_tilde("~/a", &None), "~/a");
}

#[test]
fn destinations() {
    let home = Some("/home/me".to_string());
    assert!(matches!(destination("/tmp", &home), Destination::Absolute(p) if p == "/tmp"));
    assert!(matches!(destination("~/x", &home), Destination::Absolute(p) if p == "/home/me/x"));
    assert!(matches!(destination("x/y", &home), Destination::Relative(p) if p == "x/y"));
    assert!(matches!(destination("~", &None), Destination::Relative(p) if p == "~"));
}
