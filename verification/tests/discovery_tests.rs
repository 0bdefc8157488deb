use tokr::discovery::{map_output_path, DiscoveryError, FileDiscovery};

#[test]
fn test_map_output_path() {
    let out1 = map_output_path(
        "/project/src/components/_button.scss",
        "/project",
        "/project/dist",
        "ts",
    )
    .unwrap();
    assert_eq!(out1, "/project/dist/src/components/button.ts");

    let out2 = map_output_path("/project/src/index.scss", "/project", "/project/dist", "js").unwrap();
    assert_eq!(out2, "/project/dist/src/index.js");
}

#[test]
fn map_output_path_edge_cases() {
    assert_eq!(map_output_path("/other/a.scss", "/project", "/out", "ts"), None);
    assert_eq!(map_output_path("/project", "/project", "/out", "ts"), None);
    assert_eq!(map_output_path("rel/a.scss", "/project", "/out", "ts"), None);
    assert_eq!(
        map_output_path("/project/a.b.scss", "/project/", "out/", "d.ts"),
        Some("out/a.b.d.ts".to_string())
    );
    assert_eq!(
        map_output_path("/project/.hidden", "/project", "", "ts"),
        Some(".hidden.ts".to_string())
    );
    assert_eq!(
        map_output_path("/projectx/a.scss", "/project", "/out", "ts"),
        None
    );
}

#[test]
fn discovery_selects_matching_files() {
    let d = FileDiscovery::new(&["src/**/*.scss".to_string()]).ok().unwrap();
    assert!(d.matches("src/a.scss"));
    assert!(d.matches("src/components/_b.scss"));
    assert!(!d.matches("src/c.txt"));
    let files = vec![
        ("/r/src/a.scss".to_string(), "src/a.scss".to_string()),
        ("/r/src/c.txt".to_string(), "src/c.txt".to_string()),
        ("/r/src/components/_b.scss".to_string(), "src/components/_b.scss".to_string()),
    ];
    assert_eq!(
        d.select(files),
        vec!["/r/src/a.scss".to_string(), "/r/src/components/_b.scss".to_string()]
    );
}

#[test]
fn discovery_reports_the_bad_pattern() {
    let r = FileDiscovery::new(&["*.scss".to_string(), "src/[".to_string()]);
    match r {
        Err(DiscoveryError::InvalidGlob { index, error }) => {
            assert_eq!(index, 1);
            assert!(error.to_string().contains("src/["));
        }
        _ => panic!("expected an invalid glob"),
    }
}

#[test]
fn map_output_path_keeps_a_leading_current_dir() {
    assert_eq!(map_output_path("proj/a.scss", "./proj", "out", "ts"), None);
    assert_eq!(
        map_output_path("./proj/a.scss", "./proj", "out", "ts"),
        Some("out/a.ts".to_string())
    );
    assert_eq!(map_output_path("./a.scss", ".", "out", "js"), Some("out/a.js".to_string()));
    assert_eq!(map_output_path("a.scss", ".", "out", "js"), None);
}
