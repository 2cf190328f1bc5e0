//! Where outputs go: the naming rules, and the checks before anything is
//! written.
//!
//! A path reaches these rules split into plain values. What the file system
//! has to say of it is passed along as plain values too.

use vstd::prelude::*;
use vstd::slice::slice_subrange;
use vstd::slice::slice_to_vec;
use vstd::string::StringSliceAdditionalSpecFns;

use crate::bytes::append;
use crate::bytes::same_bytes;

verus! {

/// Why an output path is refused.
#[derive(Clone, Copy, Debug, PartialEq, Eq, Structural)]
pub enum PathError {
    /// The path does not end in a file name.
    NoFileName,
    /// The output would replace its own input.
    WouldOverwriteInput,
    /// There is something at the output path.
    OutputExists,
    /// There is something at the temporary path.
    TempExists,
    /// Two inputs, given by their positions, map to one output.
    Collision(usize, usize),
}

/// A path taken apart.
#[derive(Debug, PartialEq, Eq)]
pub struct FilePath {
    /// The whole path.
    pub text: Vec<u8>,
    /// The path without its last component, where there is one to take away.
    pub parent: Option<Vec<u8>>,
    /// The last component, where it is a file name.
    pub name: Option<Vec<u8>>,
}

/// An output path: one that the user gave, or a file in a directory.
#[derive(Debug, PartialEq, Eq)]
pub enum OutputPath {
    Exact(Vec<u8>),
    InDir(Vec<u8>, Vec<u8>),
}

/// The contents of a [`FilePath`].
pub struct PathView {
    pub text: Seq<u8>,
    pub parent: Option<Seq<u8>>,
    pub name: Option<Seq<u8>>,
}

/// The contents of an [`OutputPath`].
pub enum OutputView {
    Exact(Seq<u8>),
    InDir(Seq<u8>, Seq<u8>),
}

/// The contents of an optional vector.
pub open spec fn bytes_view(bytes: Option<Vec<u8>>) -> Option<Seq<u8>> {
    match bytes {
        Some(b) => Some(b@),
        None => None,
    }
}

/// The contents of an optional path.
pub open spec fn path_view(path: Option<&FilePath>) -> Option<PathView> {
    match path {
        Some(p) => Some(p@),
        None => None,
    }
}

impl View for FilePath {
    type V = PathView;

    open spec fn view(&self) -> PathView {
        PathView {
            text: self.text@,
            parent: bytes_view(self.parent),
            name: bytes_view(self.name),
        }
    }
}

impl View for OutputPath {
    type V = OutputView;

    open spec fn view(&self) -> OutputView {
        match self {
            OutputPath::Exact(text) => OutputView::Exact(text@),
            OutputPath::InDir(dir, name) => OutputView::InDir(dir@, name@),
        }
    }
}

impl OutputPath {
    /// The same path once more.
    pub fn duplicate(&self) -> (copy: OutputPath)
        ensures
            copy@ == self@,
    {
        match self {
            OutputPath::Exact(text) => OutputPath::Exact(slice_to_vec(text)),
            OutputPath::InDir(dir, name) => OutputPath::InDir(
                slice_to_vec(dir),
                slice_to_vec(name),
            ),
        }
    }
}

/// The position of the last dot, or -1.
pub open spec fn last_dot(name: Seq<u8>) -> int
    decreases name.len(),
{
    if name.len() == 0 {
        -1
    } else if name.last() == 0x2Eu8 {
        name.len() - 1
    } else {
        last_dot(name.drop_last())
    }
}

/// Where a file name is cut into stem and extension: at its last dot, unless
/// that is its first byte or the name is the parent directory's.
pub open spec fn extension_dot(name: Seq<u8>) -> Option<int> {
    if last_dot(name) <= 0 || name == seq![0x2Eu8, 0x2Eu8] {
        None
    } else {
        Some(last_dot(name))
    }
}

/// The extension of a file name.
pub open spec fn extension_of(name: Seq<u8>) -> Option<Seq<u8>> {
    match extension_dot(name) {
        Some(dot) => Some(name.skip(dot + 1)),
        None => None,
    }
}

/// A file name without its extension.
pub open spec fn stem_of(name: Seq<u8>) -> Seq<u8> {
    match extension_dot(name) {
        Some(dot) => name.take(dot),
        None => name,
    }
}

/// The extension of a path's file name.
pub open spec fn path_extension(path: PathView) -> Option<Seq<u8>> {
    match path.name {
        Some(name) => extension_of(name),
        None => None,
    }
}

/// `stem` with an extension, if there is one and it is not empty.
pub open spec fn with_extension_spec(stem: Seq<u8>, extension: Option<Seq<u8>>) -> Seq<u8> {
    match extension {
        Some(ext) => if ext.len() == 0 {
            stem
        } else {
            stem + seq![0x2Eu8] + ext
        },
        None => stem,
    }
}

/// The current directory.
pub open spec fn here() -> Seq<u8> {
    seq![0x2Eu8]
}

/// The directory that a path lies in.
pub open spec fn parent_or_here(path: PathView) -> Seq<u8> {
    match path.parent {
        Some(parent) => parent,
        None => here(),
    }
}

/// An ASCII letter in lower case; any other byte as it is.
pub open spec fn lower(byte: u8) -> u8 {
    if 0x41 <= byte <= 0x5A {
        (byte + 0x20) as u8
    } else {
        byte
    }
}

/// Equality up to the case of ASCII letters.
pub open spec fn same_ignoring_case(a: Seq<u8>, b: Seq<u8>) -> bool {
    a.len() == b.len() && forall|i: int| 0 <= i < a.len() ==> lower(#[trigger] a[i]) == lower(b[i])
}

/// The extension of packed files.
pub open spec fn ts_extension() -> Seq<u8> {
    seq![0x74u8, 0x73u8]
}

/// Whether a path has the extension of a packed file, in any case.
pub open spec fn is_ts_path(path: PathView) -> bool {
    match path_extension(path) {
        Some(ext) => same_ignoring_case(ext, ts_extension()),
        None => false,
    }
}

/// The file `stem` plus extension, in the output directory or beside the input.
pub open spec fn placed(
    input: PathView,
    output: Option<PathView>,
    extension: Option<Seq<u8>>,
) -> OutputView {
    let name = with_extension_spec(stem_of(input.name.unwrap()), extension);
    match output {
        Some(out) => OutputView::InDir(out.text, name),
        None => OutputView::InDir(parent_or_here(input), name),
    }
}

/// Where a packed file goes.
pub open spec fn pack_output(input: PathView, output: Option<PathView>, batch: bool) -> Result<
    OutputView,
    PathError,
> {
    if input.name is None {
        Err(PathError::NoFileName)
    } else if output is Some && !batch && is_ts_path(output.unwrap()) {
        Ok(OutputView::Exact(output.unwrap().text))
    } else {
        Ok(placed(input, output, Some(ts_extension())))
    }
}

/// Where an extracted file goes.
pub open spec fn extract_output(
    input: PathView,
    output: Option<PathView>,
    output_is_dir: bool,
    batch: bool,
    extension: Option<Seq<u8>>,
) -> Result<OutputView, PathError> {
    if input.name is None {
        Err(PathError::NoFileName)
    } else if output is Some && !batch && path_extension(output.unwrap()) is Some
        && !output_is_dir {
        Ok(OutputView::Exact(output.unwrap().text))
    } else {
        Ok(placed(input, output, extension))
    }
}

/// The name under which an output is written until it is complete.
pub open spec fn temp_name(name: Seq<u8>) -> Seq<u8> {
    let base = seq![0x2Eu8] + name + seq![0x2Eu8, 0x70u8, 0x61u8, 0x72u8, 0x74u8];
    match extension_of(name) {
        Some(ext) => base + seq![0x2Eu8] + ext,
        None => base,
    }
}

/// The temporary path of an output.
pub open spec fn temp_path(final_path: PathView) -> Result<OutputView, PathError> {
    match final_path.name {
        Some(name) => Ok(OutputView::InDir(parent_or_here(final_path), temp_name(name))),
        None => Err(PathError::NoFileName),
    }
}

/// The outcome of a rule that gives an output path.
pub open spec fn placement(result: Result<OutputPath, PathError>) -> Result<OutputView, PathError> {
    match result {
        Ok(path) => Ok(path@),
        Err(e) => Err(e),
    }
}

/// Finds the dot before the extension of a file name.
pub fn find_extension_dot(name: &[u8]) -> (dot: Option<usize>)
    ensures
        extension_dot(name@) == match dot {
            Some(d) => Some(d as int),
            None => None,
        },
        dot matches Some(d) ==> 0 < d < name@.len() <= usize::MAX && name@[d as int] == 0x2E,
{
    let mut i: usize = name.len();
    assert(name@.take(i as int) =~= name@);
    while i > 0
        invariant
            i <= name@.len(),
            last_dot(name@) == last_dot(name@.take(i as int)),
        decreases i,
    {
        assert(name@.take(i as int).drop_last() =~= name@.take(i - 1));
        if name[i - 1] == 0x2E {
            let dot: usize = i - 1;
            if dot == 0 {
                return None;
            }
            if name.len() == 2 && name[0] == 0x2E {
                assert(name@ =~= seq![0x2Eu8, 0x2Eu8]);
                return None;
            }
            assert(name@ != seq![0x2Eu8, 0x2Eu8]) by {
                if name@ == seq![0x2Eu8, 0x2Eu8] {
                    assert(name@[0] == 0x2E);
                }
            }
            return Some(dot);
        }
        i -= 1;
    }
    None
}

/// Equality up to the case of ASCII letters.
pub fn eq_ignore_ascii_case(a: &[u8], b: &[u8]) -> (same: bool)
    ensures
        same == same_ignoring_case(a@, b@),
{
    if a.len() != b.len() {
        return false;
    }
    let mut i: usize = 0;
    while i < a.len()
        invariant
            i <= a@.len(),
            a@.len() == b@.len(),
            forall|j: int| 0 <= j < i ==> lower(#[trigger] a@[j]) == lower(b@[j]),
        decreases a@.len() - i,
    {
        if to_lower(a[i]) != to_lower(b[i]) {
            return false;
        }
        i += 1;
    }
    true
}

/// An ASCII letter in lower case.
fn to_lower(byte: u8) -> (low: u8)
    ensures
        low == lower(byte),
{
    if 0x41 <= byte && byte <= 0x5A {
        byte + 0x20
    } else {
        byte
    }
}

impl FilePath {
    /// The extension of the file name.
    pub fn extension(&self) -> (extension: Option<Vec<u8>>)
        ensures
            bytes_view(extension) == path_extension(self@),
    {
        match &self.name {
            None => None,
            Some(name) => {
                let len: usize = name.len();
                match find_extension_dot(name) {
                    None => None,
                    Some(dot) => {
                        let ext = slice_subrange(name, dot + 1, len);
                        assert(ext@ =~= name@.skip(dot + 1));
                        Some(slice_to_vec(ext))
                    },
                }
            },
        }
    }

    /// The directory that the path lies in.
    pub fn dir(&self) -> (dir: Vec<u8>)
        ensures
            dir@ == parent_or_here(self@),
    {
        match &self.parent {
            Some(parent) => slice_to_vec(parent),
            None => {
                let dot: Vec<u8> = vec![0x2E];
                assert(dot@ =~= here());
                dot
            },
        }
    }
}

/// The file name without its extension. Fails where there is no file name.
pub fn file_stem(path: &FilePath) -> (result: Result<Vec<u8>, PathError>)
    ensures
        match path@.name {
            Some(name) => result matches Ok(stem) && stem@ == stem_of(name),
            None => result == Err::<Vec<u8>, PathError>(PathError::NoFileName),
        },
{
    match &path.name {
        None => Err(PathError::NoFileName),
        Some(name) => match find_extension_dot(name) {
            None => Ok(slice_to_vec(name)),
            Some(dot) => {
                let stem = slice_subrange(name, 0, dot);
                assert(stem@ =~= name@.take(dot as int));
                Ok(slice_to_vec(stem))
            },
        },
    }
}

/// `stem` with an extension, if there is one and it is not empty.
pub fn with_extension(stem: &[u8], extension: Option<&[u8]>) -> (name: Vec<u8>)
    ensures
        name@ == with_extension_spec(
            stem@,
            match extension {
                Some(ext) => Some(ext@),
                None => None,
            },
        ),
{
    let mut name = slice_to_vec(stem);
    if let Some(ext) = extension {
        if ext.len() > 0 {
            name.push(0x2E);
            append(&mut name, ext);
            assert(name@ =~= stem@ + seq![0x2Eu8] + ext@);
        }
    }
    name
}

/// Whether a path has the extension of a packed file, in any case.
pub fn looks_like_file_output(path: &FilePath) -> (exact: bool)
    ensures
        exact == is_ts_path(path@),
{
    let ts: Vec<u8> = vec![0x74, 0x73];
    assert(ts@ =~= ts_extension());
    match path.extension() {
        Some(ext) => eq_ignore_ascii_case(&ext, &ts),
        None => false,
    }
}

/// Whether an output path names a file rather than a directory to put files in.
pub fn looks_like_exact_file_output(path: &FilePath, is_dir: bool) -> (exact: bool)
    ensures
        exact == (path_extension(path@) is Some && !is_dir),
{
    path.extension().is_some() && !is_dir
}

/// The file `stem` plus extension, in the output directory or beside the input.
fn place(
    input: &FilePath,
    output: Option<&FilePath>,
    stem: &[u8],
    extension: Option<&[u8]>,
) -> (path: OutputPath)
    requires
        input.name is Some,
        stem@ == stem_of(input@.name.unwrap()),
    ensures
        path@ == placed(
            input@,
            path_view(output),
            match extension {
                Some(ext) => Some(ext@),
                None => None,
            },
        ),
{
    let name = with_extension(stem, extension);
    match output {
        Some(out) => OutputPath::InDir(slice_to_vec(&out.text), name),
        None => OutputPath::InDir(input.dir(), name),
    }
}

/// Where the packed form of `input` goes: to `output` itself where that names
/// a `.ts` file and this is no batch, else to `<stem>.ts` in `output`, or
/// beside the input.
pub fn pack_output_path(input: &FilePath, output: Option<&FilePath>, batch: bool) -> (result: Result<
    OutputPath,
    PathError,
>)
    ensures
        placement(result) == pack_output(input@, path_view(output), batch),
{
    let stem = file_stem(input)?;
    if let Some(out) = output {
        if !batch && looks_like_file_output(out) {
            return Ok(OutputPath::Exact(slice_to_vec(&out.text)));
        }
    }
    let ts: Vec<u8> = vec![0x74, 0x73];
    assert(ts@ =~= ts_extension());
    Ok(place(input, output, &stem, Some(&ts)))
}

/// Where what comes out of `input` goes: to `output` itself where that has an
/// extension, is no directory and this is no batch, else to `<stem>` plus
/// `extension` in `output`, or beside the input.
pub fn extract_output_path(
    input: &FilePath,
    output: Option<&FilePath>,
    output_is_dir: bool,
    batch: bool,
    extension: Option<&str>,
) -> (result: Result<OutputPath, PathError>)
    ensures
        placement(result) == extract_output(
            input@,
            path_view(output),
            output_is_dir,
            batch,
            match extension {
                Some(ext) => Some(ext.spec_bytes()),
                None => None,
            },
        ),
{
    let stem = file_stem(input)?;
    if let Some(out) = output {
        if !batch && looks_like_exact_file_output(out, output_is_dir) {
            return Ok(OutputPath::Exact(slice_to_vec(&out.text)));
        }
    }
    match extension {
        Some(ext) => Ok(place(input, output, &stem, Some(ext.as_bytes()))),
        None => Ok(place(input, output, &stem, None)),
    }
}

/// The directory for raw streams: the given one, else the input's.
pub open spec fn raw_dir(input: PathView, output: Option<PathView>) -> Seq<u8> {
    match output {
        Some(out) => out.text,
        None => parent_or_here(input),
    }
}

/// The directory for raw streams: the given one, else the input's.
pub fn raw_output_dir(input: &FilePath, output: Option<&FilePath>) -> (dir: Vec<u8>)
    ensures
        dir@ == raw_dir(input@, path_view(output)),
{
    match output {
        Some(out) => slice_to_vec(&out.text),
        None => input.dir(),
    }
}

/// The directory for raw streams where an MP4 file was wanted: that of the
/// file, where `output` names one.
pub open spec fn fallback_dir(
    input: PathView,
    output: Option<PathView>,
    output_is_dir: bool,
    batch: bool,
) -> Seq<u8> {
    match output {
        Some(out) => if !batch && path_extension(out) is Some && !output_is_dir {
            parent_or_here(out)
        } else {
            out.text
        },
        None => parent_or_here(input),
    }
}

/// The directory for raw streams where an MP4 file was wanted.
pub fn fallback_raw_output_dir(
    input: &FilePath,
    output: Option<&FilePath>,
    output_is_dir: bool,
    batch: bool,
) -> (dir: Vec<u8>)
    ensures
        dir@ == fallback_dir(input@, path_view(output), output_is_dir, batch),
{
    match output {
        Some(out) => {
            if !batch && looks_like_exact_file_output(out, output_is_dir) {
                out.dir()
            } else {
                slice_to_vec(&out.text)
            }
        },
        None => input.dir(),
    }
}

/// The path under which an output is written until it is complete. Fails where
/// the output has no file name.
pub fn temp_path_for(final_path: &FilePath) -> (result: Result<OutputPath, PathError>)
    ensures
        placement(result) == temp_path(final_path@),
{
    match &final_path.name {
        None => Err(PathError::NoFileName),
        Some(name) => {
            let mut temp: Vec<u8> = vec![0x2E];
            append(&mut temp, name);
            temp.push(0x2E);
            temp.push(0x70);
            temp.push(0x61);
            temp.push(0x72);
            temp.push(0x74);
            if let Some(ext) = final_path.extension() {
                temp.push(0x2E);
                append(&mut temp, &ext);
            }
            assert(temp@ =~= temp_name(name@));
            Ok(OutputPath::InDir(final_path.dir(), temp))
        },
    }
}

/// Whether an output may be written: it is not the input, and nothing is there.
/// The two paths are absolute and in one normal form.
pub fn ensure_output_available(input: &[u8], output: &[u8], output_exists: bool) -> (result: Result<
    (),
    PathError,
>)
    ensures
        result == (if input@ == output@ {
            Err::<(), PathError>(PathError::WouldOverwriteInput)
        } else if output_exists {
            Err(PathError::OutputExists)
        } else {
            Ok(())
        }),
{
    if same_bytes(input, output) {
        return Err(PathError::WouldOverwriteInput);
    }
    if output_exists {
        return Err(PathError::OutputExists);
    }
    Ok(())
}

/// Whether the temporary path is free.
pub fn ensure_temp_available(temp_exists: bool) -> (result: Result<(), PathError>)
    ensures
        result == (if temp_exists {
            Err::<(), PathError>(PathError::TempExists)
        } else {
            Ok(())
        }),
{
    if temp_exists {
        return Err(PathError::TempExists);
    }
    Ok(())
}

/// Whether a temporary file may take its final place: only where nothing is
/// there.
pub fn commit_temp(final_exists: bool) -> (result: Result<(), PathError>)
    ensures
        result == (if final_exists {
            Err::<(), PathError>(PathError::OutputExists)
        } else {
            Ok(())
        }),
{
    if final_exists {
        return Err(PathError::OutputExists);
    }
    Ok(())
}

/// What the file system says of a path.
pub struct PathFacts {
    /// The path with links resolved, where it exists.
    pub canonical: Option<Vec<u8>>,
    /// The parent with links resolved, where it exists.
    pub canonical_parent: Option<Vec<u8>>,
    /// The parent seen from the working directory.
    pub absolute_parent: Vec<u8>,
}

/// The absolute form of a path: resolved where it exists, else its name in the
/// resolved parent, else its name in the parent seen from the working directory.
pub open spec fn absolute_form(path: PathView, facts: PathFacts) -> Result<OutputView, PathError> {
    match facts.canonical {
        Some(whole) => Ok(OutputView::Exact(whole@)),
        None => match path.name {
            None => Err(PathError::NoFileName),
            Some(name) => Ok(
                OutputView::InDir(
                    match facts.canonical_parent {
                        Some(parent) => parent@,
                        None => facts.absolute_parent@,
                    },
                    name,
                ),
            ),
        },
    }
}

/// The absolute form of a path, from what the file system says of it. Fails
/// where the path does not exist and has no file name.
pub fn absolutize(path: &FilePath, facts: &PathFacts) -> (result: Result<OutputPath, PathError>)
    ensures
        placement(result) == absolute_form(path@, *facts),
{
    if let Some(whole) = &facts.canonical {
        return Ok(OutputPath::Exact(slice_to_vec(whole)));
    }
    match &path.name {
        None => Err(PathError::NoFileName),
        Some(name) => {
            let dir = match &facts.canonical_parent {
                Some(parent) => slice_to_vec(parent),
                None => slice_to_vec(&facts.absolute_parent),
            };
            Ok(OutputPath::InDir(dir, slice_to_vec(name)))
        },
    }
}

/// A planned output: its path, and its directory in normal form.
pub struct PlannedOutput {
    pub output: FilePath,
    pub dir: Vec<u8>,
}

/// The directory by which the file system knows a path: the current one where
/// the path names none.
pub open spec fn lookup_dir_spec(path: PathView) -> Seq<u8> {
    match path.parent {
        Some(parent) => if parent.len() == 0 {
            here()
        } else {
            parent
        },
        None => here(),
    }
}

/// The directory by which the file system knows a path: the current one where
/// the path names none, as a bare file name does.
pub fn lookup_dir(path: &FilePath) -> (dir: Vec<u8>)
    ensures
        dir@ == lookup_dir_spec(path@),
{
    let dir = path.dir();
    if dir.len() == 0 {
        let dot: Vec<u8> = vec![0x2E];
        assert(dot@ =~= here());
        return dot;
    }
    dir
}

/// A planned output with its directory in normal form: resolved where it
/// exists, else as seen from the working directory.
pub fn output_key(path: FilePath, facts: &PathFacts) -> (planned: PlannedOutput)
    ensures
        planned.output == path,
        planned.dir@ == (match facts.canonical_parent {
            Some(parent) => parent@,
            None => facts.absolute_parent@,
        }),
{
    let dir = match &facts.canonical_parent {
        Some(parent) => slice_to_vec(parent),
        None => slice_to_vec(&facts.absolute_parent),
    };
    PlannedOutput { output: path, dir }
}

/// What tells one planned output from another: the directory and the file name.
pub open spec fn key_of(planned: PlannedOutput) -> Option<(Seq<u8>, Seq<u8>)> {
    match planned.output@.name {
        Some(name) => Some((planned.dir@, name)),
        None => None,
    }
}

/// The first `count` outputs have file names, and no two are the same.
pub open spec fn all_distinct(planned: Seq<PlannedOutput>, count: int) -> bool {
    forall|j: int|
        0 <= j < count ==> (#[trigger] key_of(planned[j])) is Some && forall|i: int|
            0 <= i < j ==> #[trigger] key_of(planned[i]) != key_of(planned[j])
}

/// What [`ensure_no_output_collisions`] has to answer.
pub open spec fn collision_verdict(
    planned: Seq<PlannedOutput>,
    result: Result<(), PathError>,
) -> bool {
    match result {
        Ok(()) => all_distinct(planned, planned.len() as int),
        Err(PathError::NoFileName) => exists|j: int|
            0 <= j < planned.len() && all_distinct(planned, j) && (#[trigger] key_of(planned[j]))
                is None,
        Err(PathError::Collision(i, j)) => {
            &&& i < j < planned.len()
            &&& all_distinct(planned, j as int)
            &&& key_of(planned[j as int]) is Some
            &&& key_of(planned[i as int]) == key_of(planned[j as int])
        },
        Err(_) => false,
    }
}

/// Whether two planned outputs are one file.
fn same_output(a: &PlannedOutput, b: &PlannedOutput) -> (same: bool)
    ensures
        same == (key_of(*a) is Some && key_of(*a) == key_of(*b)),
{
    match (&a.output.name, &b.output.name) {
        (Some(x), Some(y)) => same_bytes(&a.dir, &b.dir) && same_bytes(x, y),
        _ => false,
    }
}

/// Whether all planned outputs are different files. Names the first output
/// that repeats an earlier one, and the one it repeats; or fails at the first
/// output without a file name, if that comes before.
pub fn ensure_no_output_collisions(planned: &[PlannedOutput]) -> (result: Result<(), PathError>)
    ensures
        collision_verdict(planned@, result),
{
    let mut j: usize = 0;
    while j < planned.len()
        invariant
            j <= planned@.len(),
            all_distinct(planned@, j as int),
        decreases planned@.len() - j,
    {
        if planned[j].output.name.is_none() {
            assert(key_of(planned@[j as int]) is None);
            return Err(PathError::NoFileName);
        }
        let mut i: usize = 0;
        while i < j
            invariant
                i <= j < planned@.len(),
                all_distinct(planned@, j as int),
                key_of(planned@[j as int]) is Some,
                forall|k: int|
                    0 <= k < i ==> #[trigger] key_of(planned@[k]) != key_of(planned@[j as int]),
            decreases j - i,
        {
            if same_output(&planned[j], &planned[i]) {
                return Err(PathError::Collision(i, j));
            }
            i += 1;
        }
        j += 1;
    }
    Ok(())
}

} // verus!
