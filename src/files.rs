//! The three project files: each finds its version token, reads it as a
//! version, and rewrites it in place.
use vstd::prelude::*;
use crate::locate::{
    addressable, found_view, locate_manifest, locate_package, locate_solution, manifest_locate,
    package_locate, solution_locate, FoundSpec,
};
use crate::patch::{apply_patch, opt_bytes, patch_spec, Span};
use crate::version::{parse_spec, short_version_text, version_text, Version};

verus! {

pub const MANIFEST_FILE_NAME: &'static str = "ControlManifest.Input.xml";

pub const PACKAGE_FILE_NAME: &'static str = "package.json";

pub const SOLUTION_FILE_NAME: &'static str = "Solution.xml";

/// The version and span that a located token gives, when its text is a version.
pub open spec fn loaded(found: Option<FoundSpec>) -> Option<(Version, Span)> {
    match found {
        Some(t) => match parse_spec(t.0) {
            Some(v) => Some((v, Span { line: t.1 as usize, col: t.2 as usize, len: t.0.len() as usize })),
            None => None,
        },
        None => None,
    }
}

pub open spec fn raw_text(found: Option<FoundSpec>) -> Option<Seq<u8>> {
    match found {
        Some(t) => Some(t.0),
        None => None,
    }
}

fn load(found: Option<(Vec<u8>, usize, usize)>) -> (r: Option<(Version, Span)>)
    ensures
        r == loaded(found_view(found)),
{
    match found {
        Some((raw, line, col)) => match Version::parse_bytes(raw.as_slice()) {
            Some(v) => Some((v, Span { line, col, len: raw.len() })),
            None => None,
        },
        None => None,
    }
}

fn raw_of(found: Option<(Vec<u8>, usize, usize)>) -> (r: Option<Vec<u8>>)
    ensures
        opt_bytes(r) == raw_text(found_view(found)),
{
    match found {
        Some((raw, _, _)) => Some(raw),
        None => None,
    }
}

/// A project file whose version token has been located and read.
pub trait FileHandler: Sized {
    /// Where this kind of file keeps its version token.
    spec fn locate_spec(content: Seq<u8>) -> Option<FoundSpec>;

    /// How this kind of file writes a version.
    spec fn render_spec(v: Version) -> Seq<u8>;

    spec fn path_spec(&self) -> Seq<String>;

    spec fn version_spec(&self) -> Version;

    spec fn span_spec(&self) -> Span;

    /// The fixed name of this kind of file.
    spec fn name_spec() -> Seq<char>;

    /// The file's fixed name.
    fn file_name() -> (r: &'static str)
        ensures
            r@ == Self::name_spec(),
    ;

    /// Reads the file at `path` (relative to the project root) from its
    /// `content`: nothing when no token is found or its text is no version.
    fn get(path: Vec<String>, content: &[u8]) -> (r: Option<Self>)
        requires
            addressable(content@),
        ensures
            match loaded(Self::locate_spec(content@)) {
                Some((v, sp)) => r matches Some(h) && h.path_spec() == path@ && h.version_spec() == v
                    && h.span_spec() == sp,
                None => r is None,
            },
    ;

    /// The raw text of the version token in `content`.
    fn read_version(content: &[u8]) -> (r: Option<Vec<u8>>)
        requires
            addressable(content@),
        ensures
            opt_bytes(r) == raw_text(Self::locate_spec(content@)),
    ;

    /// The new text of the file: `content` (read again) with the token's span
    /// replaced by `version` as this kind of file writes it.
    fn update_version(&self, content: &[u8], version: &Version) -> (r: Option<Vec<u8>>)
        ensures
            opt_bytes(r) == patch_spec(content@, self.span_spec(), Self::render_spec(*version)),
    ;

    fn path(&self) -> (r: &Vec<String>)
        ensures
            r@ == self.path_spec(),
    ;

    fn version(&self) -> (r: Version)
        ensures
            r == self.version_spec(),
    ;
}

/// The control manifest: `version="..."` in the opening `<control` tag.
pub struct ManifestFile {
    path: Vec<String>,
    pub version: Version,
    span: Span,
}

/// The package descriptor: the `"version"` key.
pub struct PackageFile {
    path: Vec<String>,
    pub version: Version,
    span: Span,
}

/// The solution descriptor: the `<version>` element, written as `major.minor`.
pub struct SolutionFile {
    path: Vec<String>,
    pub version: Version,
    span: Span,
}

impl FileHandler for ManifestFile {
    open spec fn locate_spec(content: Seq<u8>) -> Option<FoundSpec> {
        manifest_locate(content)
    }

    open spec fn render_spec(v: Version) -> Seq<u8> {
        version_text(v)
    }

    closed spec fn path_spec(&self) -> Seq<String> {
        self.path@
    }

    closed spec fn version_spec(&self) -> Version {
        self.version
    }

    closed spec fn span_spec(&self) -> Span {
        self.span
    }

    open spec fn name_spec() -> Seq<char> {
        "ControlManifest.Input.xml"@
    }

    fn file_name() -> (r: &'static str) {
        MANIFEST_FILE_NAME
    }

    fn get(path: Vec<String>, content: &[u8]) -> (r: Option<Self>) {
        match load(locate_manifest(content)) {
            Some((version, span)) => Some(ManifestFile { path, version, span }),
            None => None,
        }
    }

    fn read_version(content: &[u8]) -> (r: Option<Vec<u8>>) {
        raw_of(locate_manifest(content))
    }

    fn update_version(&self, content: &[u8], version: &Version) -> (r: Option<Vec<u8>>) {
        let text = version.text();
        apply_patch(content, self.span, text.as_slice())
    }

    fn path(&self) -> (r: &Vec<String>) {
        &self.path
    }

    fn version(&self) -> (r: Version) {
        self.version
    }
}

impl FileHandler for PackageFile {
    open spec fn locate_spec(content: Seq<u8>) -> Option<FoundSpec> {
        package_locate(content)
    }

    open spec fn render_spec(v: Version) -> Seq<u8> {
        version_text(v)
    }

    closed spec fn path_spec(&self) -> Seq<String> {
        self.path@
    }

    closed spec fn version_spec(&self) -> Version {
        self.version
    }

    closed spec fn span_spec(&self) -> Span {
        self.span
    }

    open spec fn name_spec() -> Seq<char> {
        "package.json"@
    }

    fn file_name() -> (r: &'static str) {
        PACKAGE_FILE_NAME
    }

    fn get(path: Vec<String>, content: &[u8]) -> (r: Option<Self>) {
        match load(locate_package(content)) {
            Some((version, span)) => Some(PackageFile { path, version, span }),
            None => None,
        }
    }

    fn read_version(content: &[u8]) -> (r: Option<Vec<u8>>) {
        raw_of(locate_package(content))
    }

    fn update_version(&self, content: &[u8], version: &Version) -> (r: Option<Vec<u8>>) {
        let text = version.text();
        apply_patch(content, self.span, text.as_slice())
    }

    fn path(&self) -> (r: &Vec<String>) {
        &self.path
    }

    fn version(&self) -> (r: Version) {
        self.version
    }
}

impl FileHandler for SolutionFile {
    open spec fn locate_spec(content: Seq<u8>) -> Option<FoundSpec> {
        solution_locate(content)
    }

    open spec fn render_spec(v: Version) -> Seq<u8> {
        short_version_text(v)
    }

    closed spec fn path_spec(&self) -> Seq<String> {
        self.path@
    }

    closed spec fn version_spec(&self) -> Version {
        self.version
    }

    closed spec fn span_spec(&self) -> Span {
        self.span
    }

    open spec fn name_spec() -> Seq<char> {
        "Solution.xml"@
    }

    fn file_name() -> (r: &'static str) {
        SOLUTION_FILE_NAME
    }

    fn get(path: Vec<String>, content: &[u8]) -> (r: Option<Self>) {
        match load(locate_solution(content)) {
            Some((version, span)) => Some(SolutionFile { path, version, span }),
            None => None,
        }
    }

    fn read_version(content: &[u8]) -> (r: Option<Vec<u8>>) {
        raw_of(locate_solution(content))
    }

    fn update_version(&self, content: &[u8], version: &Version) -> (r: Option<Vec<u8>>) {
        let text = version.short_text();
        apply_patch(content, self.span, text.as_slice())
    }

    fn path(&self) -> (r: &Vec<String>) {
        &self.path
    }

    fn version(&self) -> (r: Version) {
        self.version
    }
}

} // verus!
