use pcf::{
    locate_manifest, locate_package, locate_solution, FileHandler, ManifestFile, PackageFile,
    SolutionFile, Version,
};

fn path(name: &str) -> Vec<String> {
    vec![name.to_string()]
}

#[test]
fn manifest_on_one_line() {
    let c = b"<?xml version=\"1.0\"?>\n<manifest>\n  <control namespace=\"x\" version=\"1.2.3\" display-name-key=\"y\">\n</manifest>\n";
    let found = locate_manifest(c).unwrap();
    assert_eq!(found, (b"1.2.3".to_vec(), 2, 34));
}

#[test]
fn manifest_over_several_lines() {
    let c = b"<manifest>\n<Control namespace=\"x\"\n  Version=\"0.4.10\"\n  other=\"1\">\n</manifest>";
    assert_eq!(locate_manifest(c), Some((b"0.4.10".to_vec(), 2, 11)));
}

#[test]
fn manifest_tag_closed_before_version() {
    let c = b"<control namespace=\"x\">\n<x version=\"1.2.3\"/>";
    assert_eq!(locate_manifest(c), None);
}

#[test]
fn manifest_without_control() {
    let c = b"<manifest version=\"1.2.3\">\n</manifest>";
    assert_eq!(locate_manifest(c), None);
    assert!(ManifestFile::get(path("m"), c).is_none());
}

#[test]
fn package_version_key() {
    let c = b"{\n  \"name\": \"p\",\n  \"version\": \"1.2.3\",\n  \"x\": 1\n}";
    assert_eq!(locate_package(c), Some((b"1.2.3".to_vec(), 2, 14)));
}

#[test]
fn package_without_version() {
    assert_eq!(locate_package(b"{ \"name\": \"p\" }"), None);
}

#[test]
fn solution_version_element() {
    let c = b"<ImportExportXml>\n    <Version>1.2</Version>\n</ImportExportXml>";
    assert_eq!(locate_solution(c), Some((b"1.2".to_vec(), 1, 13)));
}

#[test]
fn solution_tags_out_of_order() {
    let c = b"</version><version>\n<version>2.0.0</version>";
    assert_eq!(locate_solution(c), Some((b"2.0.0".to_vec(), 1, 9)));
}

#[test]
fn unparseable_version_is_not_usable() {
    let c = b"<Version>1.x</Version>";
    assert_eq!(locate_solution(c), Some((b"1.x".to_vec(), 0, 9)));
    assert!(SolutionFile::get(path("s"), c).is_none());
}

#[test]
fn read_version_gives_the_raw_token() {
    let c = b"\"version\": \"01.2\"";
    assert_eq!(PackageFile::read_version(c), Some(b"01.2".to_vec()));
    assert_eq!(PackageFile::get(path("p"), c).unwrap().version, Version { major: 1, minor: 2, patch: 0 });
}

#[test]
fn increment_minor_end_to_end() {
    let manifest = b"<manifest>\n  <control namespace=\"n\" version=\"1.2.3\" display-name-key=\"k\">\n  </control>\n</manifest>\n";
    let package = b"{\n  \"name\": \"pcf\",\n  \"version\": \"1.2.3\"\n}\n";
    let solution = b"<ImportExportXml>\n  <SolutionManifest>\n    <Version>1.2</Version>\n  </SolutionManifest>\n</ImportExportXml>\n";

    let m = ManifestFile::get(path(pcf::MANIFEST_FILE_NAME), manifest).unwrap();
    let p = PackageFile::get(path(pcf::PACKAGE_FILE_NAME), package).unwrap();
    let s = SolutionFile::get(path(pcf::SOLUTION_FILE_NAME), solution).unwrap();
    assert_eq!(m.version, Version { major: 1, minor: 2, patch: 3 });
    assert_eq!(s.version(), Version { major: 1, minor: 2, patch: 0 });
    assert_eq!(m.path(), &path(pcf::MANIFEST_FILE_NAME));

    let next = m.version.bump_minor().unwrap();
    assert_eq!(next.to_string(), "1.3.0");

    let manifest_out = m.update_version(manifest, &next).unwrap();
    let package_out = p.update_version(package, &next).unwrap();
    let solution_out = s.update_version(solution, &next).unwrap();
    assert_eq!(
        manifest_out,
        b"<manifest>\r\n  <control namespace=\"n\" version=\"1.3.0\" display-name-key=\"k\">\r\n  </control>\r\n</manifest>".to_vec()
    );
    assert_eq!(package_out, b"{\r\n  \"name\": \"pcf\",\r\n  \"version\": \"1.3.0\"\r\n}".to_vec());
    assert_eq!(
        solution_out,
        b"<ImportExportXml>\r\n  <SolutionManifest>\r\n    <Version>1.3</Version>\r\n  </SolutionManifest>\r\n</ImportExportXml>".to_vec()
    );

    assert_eq!(ManifestFile::get(path("m"), &manifest_out).unwrap().version, next);
    assert_eq!(PackageFile::get(path("p"), &package_out).unwrap().version, next);
    assert_eq!(SolutionFile::get(path("s"), &solution_out).unwrap().version, Version { major: 1, minor: 3, patch: 0 });
}

#[test]
fn set_exact_version_end_to_end() {
    let manifest = b"<control version=\"3.4.5\">";
    let m = ManifestFile::get(path("m"), manifest).unwrap();
    let next = m.version.with_fields(None, Some(9), None);
    assert_eq!(m.update_version(manifest, &next), Some(b"<control version=\"3.9.5\">".to_vec()));
}

#[test]
fn update_after_the_file_shrank_fails() {
    let manifest = b"<a>\n<control version=\"3.4.5\">";
    let m = ManifestFile::get(path("m"), manifest).unwrap();
    let next = Version { major: 3, minor: 4, patch: 6 };
    assert_eq!(m.update_version(b"<a>", &next), None);
}

#[test]
fn file_names() {
    assert_eq!(ManifestFile::file_name(), "ControlManifest.Input.xml");
    assert_eq!(PackageFile::file_name(), "package.json");
    assert_eq!(SolutionFile::file_name(), "Solution.xml");
}
