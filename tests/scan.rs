use pcf::{DirEntry, DirScan, ScanAction, DEFAULT_EXCLUDED_DIR, MANIFEST_FILE_NAME};

fn file(name: &str) -> DirEntry {
    DirEntry { name: name.to_string(), is_file: true, is_dir: false }
}

fn dir(name: &str) -> DirEntry {
    DirEntry { name: name.to_string(), is_file: false, is_dir: true }
}

fn new_scan() -> DirScan {
    DirScan::new(MANIFEST_FILE_NAME.to_string(), DEFAULT_EXCLUDED_DIR.to_string())
}

/// Runs the scan over a tree given as (directory path, listing) pairs.
fn run(scan: &mut DirScan, tree: &dyn Fn(&[String]) -> Vec<DirEntry>) -> (Option<Vec<String>>, Vec<Vec<String>>) {
    let mut listed: Vec<Vec<String>> = vec![Vec::new()];
    scan.give_listing(tree(&[]));
    loop {
        match scan.step() {
            ScanAction::List(p) => {
                scan.give_listing(tree(p.as_slice()));
                listed.push(p);
            }
            ScanAction::Found(p) => return (Some(p), listed),
            ScanAction::Next => {}
            ScanAction::Done => return (None, listed),
        }
    }
}

#[test]
fn finds_a_file_at_the_root() {
    let mut scan = new_scan();
    let (found, _) = run(&mut scan, &|p: &[String]| {
        if p.is_empty() {
            vec![file("README.md"), file(MANIFEST_FILE_NAME)]
        } else {
            Vec::new()
        }
    });
    assert_eq!(found, Some(vec![MANIFEST_FILE_NAME.to_string()]));
}

#[test]
fn finds_a_file_in_a_subdirectory() {
    let mut scan = new_scan();
    let (found, listed) = run(&mut scan, &|p: &[String]| match p.len() {
        0 => vec![file("a.txt"), dir("src"), file("b.txt")],
        1 if p[0] == "src" => vec![dir("inner")],
        2 => vec![file(MANIFEST_FILE_NAME)],
        _ => Vec::new(),
    });
    assert_eq!(
        found,
        Some(vec!["src".to_string(), "inner".to_string(), MANIFEST_FILE_NAME.to_string()])
    );
    assert_eq!(listed.len(), 3);
}

#[test]
fn excluded_directory_is_never_entered() {
    let mut scan = new_scan();
    let (found, listed) = run(&mut scan, &|p: &[String]| {
        if p.is_empty() {
            vec![dir(DEFAULT_EXCLUDED_DIR), file("other.xml")]
        } else {
            vec![file(MANIFEST_FILE_NAME)]
        }
    });
    assert_eq!(found, None);
    assert_eq!(listed, vec![Vec::<String>::new()]);
}

#[test]
fn first_match_in_walk_order_wins() {
    let mut scan = new_scan();
    let (found, _) = run(&mut scan, &|p: &[String]| match p.len() {
        0 => vec![dir("one"), dir("two")],
        1 => vec![file(MANIFEST_FILE_NAME)],
        _ => Vec::new(),
    });
    assert_eq!(found, Some(vec!["one".to_string(), MANIFEST_FILE_NAME.to_string()]));
}

#[test]
fn missing_file_ends_the_scan_with_nothing() {
    let mut scan = new_scan();
    let (found, _) = run(&mut scan, &|p: &[String]| match p.len() {
        0 => vec![dir("src"), file("package.json")],
        _ => vec![file("Solution.xml")],
    });
    assert_eq!(found, None);
}

#[test]
fn a_directory_of_the_target_name_is_not_a_match() {
    let mut scan = new_scan();
    let (found, _) = run(&mut scan, &|p: &[String]| match p.len() {
        0 => vec![dir(MANIFEST_FILE_NAME)],
        _ => Vec::new(),
    });
    assert_eq!(found, None);
}

#[test]
fn an_empty_scan_is_done() {
    let mut scan = new_scan();
    scan.give_listing(Vec::new());
    assert!(matches!(scan.step(), ScanAction::Next));
    assert!(matches!(scan.step(), ScanAction::Done));
}
