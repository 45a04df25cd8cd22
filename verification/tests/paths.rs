use lead_build::path::VirtPath;

#[test]
fn test_step_down() {
    let path = VirtPath::new("root");
    assert_eq!(path.to_string().as_str(), "[root]/$");
    let path = path.step("test").unwrap();
    assert_eq!(path.to_string().as_str(), "[root]/$/test");
    let path = path.step("b").unwrap();
    assert_eq!(path.to_string().as_str(), "[root]/$/test/b");
    let path = path.step("..").unwrap();
    assert_eq!(path.to_string().as_str(), "[root]/$/test");
    let path = path.step(".").unwrap();
    assert_eq!(path.to_string().as_str(), "[root]/$/test");
    let path = path.step("..").unwrap();
    assert_eq!(path.to_string().as_str(), "[root]/$");
    assert!(path.step("..").is_none());
}

#[test]
fn test_lock() {
    let path = VirtPath::new("root");
    assert_eq!(path.to_string().as_str(), "[root]/$");
    let path = path.step("test").unwrap();
    assert_eq!(path.to_string().as_str(), "[root]/$/test");
    let path = path.lock();
    assert_eq!(path.to_string().as_str(), "[root]/test/$");
    assert!(path.step("..").is_none());
}

#[test]
fn test_relock() {
    let path = VirtPath::new("root");
    assert_eq!(path.to_string().as_str(), "[root]/$");
    let path = path.step("test").unwrap();
    assert_eq!(path.to_string().as_str(), "[root]/$/test");
    let path = path.lock();
    assert_eq!(path.to_string().as_str(), "[root]/test/$");
    let path = path.step("b").unwrap();
    assert_eq!(path.to_string().as_str(), "[root]/test/$/b");
    let path = path.lock();
    assert_eq!(path.to_string().as_str(), "[root]/test/b/$");
}

#[test]
fn test_path_root_eq() {
    let path_a1 = VirtPath::new("a");
    let path_a2 = VirtPath::new("a");
    let path_b = VirtPath::new("b");
    assert_eq!(path_a1, path_a2);
    assert_ne!(path_a1, path_b);
    assert_ne!(path_a2, path_b);
}

#[test]
fn test_path_path_eq() {
    let base = VirtPath::new("a");
    let cur = VirtPath::new("a");
    let cur = cur.step("test").unwrap();
    assert_ne!(base, cur);
    let cur = cur.step("..").unwrap();
    assert_eq!(base, cur);
}

#[test]
fn test_virtpath_to_path_buf() {
    let virtpath_a = "./test_a";
    let virtpath_b = "./test_b";

    assert_eq!(VirtPath::virtualize(virtpath_a, "a").to_path_buf(), "./test_a".to_string());

    assert_eq!(
        VirtPath::virtualize(virtpath_a, "a").step("hej").unwrap().to_path_buf(),
        "./test_a/hej".to_string()
    );

    assert_eq!(
        VirtPath::virtualize(virtpath_a, "a").step("hej").unwrap().lock().to_path_buf(),
        "./test_a/hej".to_string()
    );

    assert_eq!(
        VirtPath::virtualize(virtpath_b, "b").step("hej").unwrap().parent().unwrap().to_path_buf(),
        "./test_b".to_string()
    );
}

#[test]
fn test_from_path() {
    let filepath = "./test/file.txt";
    let virtpath = VirtPath::virtualize(filepath, "root");

    assert_eq!(
        virtpath,
        VirtPath {
            name: "root".into(),
            root: "./test".into(),
            locked_parts: vec![],
            parts: vec!["file.txt".into()]
        }
    );
}

#[test]
fn test_translate() {
    let src_dir = VirtPath::virtualize("./src", "src");
    let build_dir = VirtPath::virtualize("./build", "build").step("subproj").unwrap();

    let src_file = src_dir.clone().step("lib").unwrap().step("source.c").unwrap();
    let exp_obj_file = build_dir.clone().step("lib").unwrap().step("source.c").unwrap();

    assert_eq!(src_file.translate(&src_dir, &build_dir), Some(exp_obj_file));
}

#[test]
fn test_translate_invalid_root() {
    let src_dir = VirtPath::virtualize("./src", "src");
    let build_dir = VirtPath::virtualize("./build", "build").step("subproj").unwrap();

    let src_subdir = src_dir.clone().step("otherdir").unwrap();

    let src_file = src_dir.clone().step("lib").unwrap().step("source.c").unwrap();

    assert_eq!(src_file.translate(&src_subdir, &build_dir), None);
}

#[test]
fn test_retype() {
    assert_eq!(
        VirtPath::new("root").step("test").unwrap().step("src.c").unwrap().retype(".c", ".o"),
        Some(VirtPath::new("root").step("test").unwrap().step("src.o").unwrap())
    );
}

#[test]
fn test_retype_invalid() {
    assert_eq!(
        VirtPath::new("root").step("test").unwrap().step("src.s").unwrap().retype(".c", ".o"),
        None
    );
}

#[test]
fn virtualize_reads_paths_by_components() {
    assert_eq!(VirtPath::virtualize("/a", "r").to_path_buf(), "/a".to_string());
    assert_eq!(VirtPath::virtualize("a//b", "r").to_path_buf(), "a/b".to_string());
    assert_eq!(VirtPath::virtualize("a/b/", "r").to_path_buf(), "a/b".to_string());
    assert_eq!(VirtPath::virtualize("a/.", "r").to_path_buf(), "a".to_string());
    assert_eq!(VirtPath::virtualize("x/./y", "r").to_path_buf(), "x/y".to_string());
    assert!(lead_build::path::check_file_name("a/b/"));
    assert!(lead_build::path::check_file_name("a/."));
    assert!(!lead_build::path::check_file_name("a/.."));
    assert!(!lead_build::path::check_file_name("/"));
}
