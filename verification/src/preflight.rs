//! What a command is going to write, worked out before it writes anything.

use vstd::prelude::*;
use vstd::string::StringSliceAdditionalSpecFns;
use vstd::utf8::encode_utf8;

use crate::bytes::contains_byte;
use crate::custom_ts::probe;
use crate::custom_ts::probed;
use crate::custom_ts::Metadata;
use crate::custom_ts::MetadataView;
use crate::custom_ts::TsboxError;
use crate::error::DemuxError;
use crate::inputs::ExtractMode;
use crate::paths::all_distinct;
use crate::paths::bytes_view;
use crate::paths::collision_verdict;
use crate::paths::ensure_no_output_collisions;
use crate::paths::ensure_output_available;
use crate::paths::ensure_temp_available;
use crate::paths::extension_of;
use crate::paths::extract_output;
use crate::paths::extract_output_path;
use crate::paths::fallback_dir;
use crate::paths::fallback_raw_output_dir;
use crate::paths::pack_output;
use crate::paths::pack_output_path;
use crate::paths::path_view;
use crate::paths::raw_dir;
use crate::paths::raw_output_dir;
use crate::paths::FilePath;
use crate::paths::OutputPath;
use crate::paths::OutputView;
use crate::paths::PathError;
use crate::paths::PathView;
use crate::paths::PlannedOutput;
use crate::plan::output_views;
use crate::plan::plan_raw_outputs;
use crate::plan::raw_outputs;

verus! {

/// Why the outputs of a file cannot be told.
#[derive(Clone, Copy, Debug, PartialEq, Eq, Structural)]
pub enum TaskError {
    Tsbox(TsboxError),
    Path(PathError),
    Demux(DemuxError),
}

/// What is to be made of one input.
pub enum ExtractPlan {
    /// The packed file, written to this path.
    Container(OutputPath),
    /// An MP4 file, written to this path; where that fails, the streams,
    /// written into the directory, if there is one.
    Remux(OutputPath, Option<Vec<u8>>),
    /// The streams, written into this directory.
    Raw(Vec<u8>),
}

/// The contents of an [`ExtractPlan`].
pub enum PlanView {
    Container(OutputView),
    Remux(OutputView, Option<Seq<u8>>),
    Raw(Seq<u8>),
}

impl View for ExtractPlan {
    type V = PlanView;

    open spec fn view(&self) -> PlanView {
        match self {
            ExtractPlan::Container(path) => PlanView::Container(path@),
            ExtractPlan::Remux(path, dir) => PlanView::Remux(path@, bytes_view(*dir)),
            ExtractPlan::Raw(dir) => PlanView::Raw(dir@),
        }
    }
}

/// How a command was called, as far as it decides on outputs.
pub struct OutputRequest {
    /// The output that was given.
    pub output: Option<FilePath>,
    /// It is a directory.
    pub output_is_dir: bool,
    /// There may be more than one input.
    pub batch: bool,
    /// Paths are written with backslashes here.
    pub backslash_separates: bool,
}

/// The contents of an [`OutputRequest`].
pub struct RequestView {
    pub output: Option<PathView>,
    pub output_is_dir: bool,
    pub batch: bool,
    pub backslash_separates: bool,
}

impl View for OutputRequest {
    type V = RequestView;

    open spec fn view(&self) -> RequestView {
        RequestView {
            output: match self.output {
                Some(path) => Some(path@),
                None => None,
            },
            output_is_dir: self.output_is_dir,
            batch: self.batch,
            backslash_separates: self.backslash_separates,
        }
    }
}

/// The extension of remuxed files.
pub open spec fn mp4_extension() -> Seq<u8> {
    encode_utf8("mp4"@)
}

/// Where a single file that comes out of an input goes.
pub open spec fn single_output(
    input: PathView,
    request: RequestView,
    extension: Option<Seq<u8>>,
) -> Result<OutputView, TaskError> {
    match extract_output(
        input,
        request.output,
        request.output_is_dir,
        request.batch,
        extension,
    ) {
        Ok(path) => Ok(path),
        Err(e) => Err(TaskError::Path(e)),
    }
}

/// What probing an input finds here. Where paths are written with backslashes,
/// a packed name with a backslash in it is none.
pub open spec fn probed_here(data: Seq<u8>, backslash_separates: bool) -> Result<
    Option<MetadataView>,
    TsboxError,
> {
    match probed(data) {
        Ok(Some(metadata)) => if backslash_separates && encode_utf8(
            metadata.original_name,
        ).contains(0x5Cu8) {
            Err(TsboxError::NotBasename)
        } else {
            Ok(Some(metadata))
        },
        Ok(None) => Ok(None),
        Err(e) => Err(e),
    }
}

/// Where a packed file goes when it is extracted.
pub open spec fn container_output(
    input: PathView,
    request: RequestView,
    metadata: MetadataView,
) -> Result<OutputView, TaskError> {
    single_output(input, request, extension_of(encode_utf8(metadata.original_name)))
}

/// What is to be made of an input that holds no packed file.
pub open spec fn media_plan(input: PathView, request: RequestView, mode: ExtractMode) -> Result<
    PlanView,
    TaskError,
> {
    match mode {
        ExtractMode::Raw => Ok(PlanView::Raw(raw_dir(input, request.output))),
        ExtractMode::Mp4 { fallback_raw } => match single_output(
            input,
            request,
            Some(mp4_extension()),
        ) {
            Err(e) => Err(e),
            Ok(path) => Ok(
                PlanView::Remux(
                    path,
                    if fallback_raw {
                        Some(
                            fallback_dir(
                                input,
                                request.output,
                                request.output_is_dir,
                                request.batch,
                            ),
                        )
                    } else {
                        None
                    },
                ),
            ),
        },
    }
}

/// What is to be made of an input. One that cannot be probed holds no packed
/// file where its streams are asked for; otherwise it is an error.
pub open spec fn extract_plan(
    data: Seq<u8>,
    input: PathView,
    request: RequestView,
    mode: ExtractMode,
) -> Result<PlanView, TaskError> {
    match probed_here(data, request.backslash_separates) {
        Ok(Some(metadata)) => match container_output(input, request, metadata) {
            Ok(path) => Ok(PlanView::Container(path)),
            Err(e) => Err(e),
        },
        Ok(None) => media_plan(input, request, mode),
        Err(e) => if mode == ExtractMode::Raw {
            media_plan(input, request, mode)
        } else {
            Err(TaskError::Tsbox(e))
        },
    }
}

/// Where a single file that comes out of an input goes.
fn place_single(input: &FilePath, request: &OutputRequest, extension: Option<&str>) -> (result: Result<
    OutputPath,
    TaskError,
>)
    ensures
        match single_output(
            input@,
            request@,
            match extension {
                Some(ext) => Some(ext.spec_bytes()),
                None => None,
            },
        ) {
            Ok(p) => result matches Ok(path) && path@ == p,
            Err(e) => result matches Err(err) && err == e,
        },
{
    match extract_output_path(
        input,
        request.output.as_ref(),
        request.output_is_dir,
        request.batch,
        extension,
    ) {
        Ok(path) => Ok(path),
        Err(e) => Err(TaskError::Path(e)),
    }
}

/// What probing an input finds here. Fails where it cannot be probed, and where
/// the name of the packed file would be a path here.
fn probe_here(data: &[u8], backslash_separates: bool) -> (result: Result<
    Option<Metadata>,
    TsboxError,
>)
    ensures
        match probed_here(data@, backslash_separates) {
            Ok(Some(m)) => result matches Ok(Some(found)) && found@ == m && found.wf(),
            Ok(None) => result matches Ok(None),
            Err(e) => result matches Err(err) && err == e,
        },
{
    match probe(data) {
        Ok(Some(metadata)) => {
            if backslash_separates && contains_byte(
                metadata.original_name.as_str().as_bytes(),
                0x5C,
            ) {
                return Err(TsboxError::NotBasename);
            }
            Ok(Some(metadata))
        },
        Ok(None) => Ok(None),
        Err(e) => Err(e),
    }
}

/// Where a packed file goes when it is extracted.
fn place_container(input: &FilePath, request: &OutputRequest, metadata: &Metadata) -> (result: Result<
    OutputPath,
    TaskError,
>)
    requires
        metadata.wf(),
    ensures
        match container_output(input@, request@, metadata@) {
            Ok(p) => result matches Ok(path) && path@ == p,
            Err(e) => result matches Err(err) && err == e,
        },
{
    place_single(input, request, metadata.original_extension())
}

/// What is to be made of an input that holds no packed file.
fn plan_media(input: &FilePath, request: &OutputRequest, mode: ExtractMode) -> (result: Result<
    ExtractPlan,
    TaskError,
>)
    ensures
        match media_plan(input@, request@, mode) {
            Ok(p) => result matches Ok(plan) && plan@ == p,
            Err(e) => result matches Err(err) && err == e,
        },
{
    match mode {
        ExtractMode::Raw => Ok(ExtractPlan::Raw(raw_output_dir(input, request.output.as_ref()))),
        ExtractMode::Mp4 { fallback_raw } => {
            let path = place_single(input, request, Some("mp4"))?;
            let dir = if fallback_raw {
                Some(
                    fallback_raw_output_dir(
                        input,
                        request.output.as_ref(),
                        request.output_is_dir,
                        request.batch,
                    ),
                )
            } else {
                None
            };
            Ok(ExtractPlan::Remux(path, dir))
        },
    }
}

/// What is to be made of an input: the packed file in it, else an MP4 file or
/// its streams, as `mode` says. Fails where it cannot be probed, unless its
/// streams are asked for, and where an output would have no file name.
pub fn plan_extract(
    data: &[u8],
    input: &FilePath,
    request: &OutputRequest,
    mode: ExtractMode,
) -> (result: Result<ExtractPlan, TaskError>)
    ensures
        match extract_plan(data@, input@, request@, mode) {
            Ok(p) => result matches Ok(plan) && plan@ == p,
            Err(e) => result matches Err(err) && err == e,
        },
{
    match probe_here(data, request.backslash_separates) {
        Ok(Some(metadata)) => {
            let path = place_container(input, request, &metadata)?;
            Ok(ExtractPlan::Container(path))
        },
        Ok(None) => plan_media(input, request, mode),
        Err(e) => {
            if let ExtractMode::Raw = mode {
                return plan_media(input, request, mode);
            }
            Err(TaskError::Tsbox(e))
        },
    }
}

/// The outputs that an input is going to have, as far as that can be told
/// beforehand.
pub open spec fn foreseen(
    data: Seq<u8>,
    input: PathView,
    request: RequestView,
    mode: ExtractMode,
) -> Result<Seq<OutputView>, TaskError> {
    match probed_here(data, request.backslash_separates) {
        Err(e) => Err(TaskError::Tsbox(e)),
        Ok(Some(metadata)) => match container_output(input, request, metadata) {
            Ok(path) => Ok(seq![path]),
            Err(e) => Err(e),
        },
        Ok(None) => match media_plan(input, request, mode) {
            Err(e) => Err(e),
            Ok(PlanView::Raw(dir)) => match raw_outputs(data, input, dir) {
                Ok(paths) => Ok(paths),
                Err(e) => Err(TaskError::Demux(e)),
            },
            Ok(PlanView::Remux(path, None)) => Ok(seq![path]),
            Ok(PlanView::Remux(path, Some(dir))) => Ok(
                seq![path] + match raw_outputs(data, input, dir) {
                    Ok(paths) => paths,
                    Err(e) => Seq::empty(),
                },
            ),
            Ok(PlanView::Container(path)) => Ok(seq![path]),
        },
    }
}

/// The outputs that an input is going to have: those of the packed file in it,
/// else the MP4 file and, where they are the fallback and can be told, the
/// streams, else the streams alone.
pub fn planned_extract_outputs(
    data: &[u8],
    input: &FilePath,
    request: &OutputRequest,
    mode: ExtractMode,
) -> (result: Result<Vec<OutputPath>, TaskError>)
    ensures
        match foreseen(data@, input@, request@, mode) {
            Ok(p) => result matches Ok(paths) && output_views(paths@) == p,
            Err(e) => result matches Err(err) && err == e,
        },
{
    let mut paths: Vec<OutputPath> = Vec::new();
    let finding = match probe_here(data, request.backslash_separates) {
        Ok(finding) => finding,
        Err(e) => {
            return Err(TaskError::Tsbox(e));
        },
    };
    if let Some(metadata) = finding {
        let path = place_container(input, request, &metadata)?;
        let ghost view = path@;
        paths.push(path);
        assert(output_views(paths@) =~= seq![view]);
        return Ok(paths);
    }
    match plan_media(input, request, mode)? {
        ExtractPlan::Raw(dir) => match plan_raw_outputs(data, input, &dir) {
            Ok(found) => Ok(found),
            Err(e) => Err(TaskError::Demux(e)),
        },
        ExtractPlan::Remux(path, dir) => {
            let ghost view = path@;
            paths.push(path);
            assert(output_views(paths@) =~= seq![view]);
            if let Some(dir) = dir {
                if let Ok(mut found) = plan_raw_outputs(data, input, &dir) {
                    let ghost before = output_views(paths@);
                    let ghost more = output_views(found@);
                    paths.append(&mut found);
                    assert(output_views(paths@) =~= before + more);
                }
                assert(seq![view] + Seq::<OutputView>::empty() =~= seq![view]);
            }
            Ok(paths)
        },
        ExtractPlan::Container(path) => {
            let ghost view = path@;
            paths.push(path);
            assert(output_views(paths@) =~= seq![view]);
            Ok(paths)
        },
    }
}

/// What an extraction is going to write was foreseen: the file that it makes,
/// and the streams that it takes out instead.
pub proof fn law_plan_is_foreseen(
    data: Seq<u8>,
    input: PathView,
    request: RequestView,
    mode: ExtractMode,
)
    requires
        probed_here(data, request.backslash_separates) is Ok,
        extract_plan(data, input, request, mode) is Ok,
    ensures
        match extract_plan(data, input, request, mode).unwrap() {
            PlanView::Container(path) => foreseen(data, input, request, mode) == Ok::<
                Seq<OutputView>,
                TaskError,
            >(seq![path]),
            PlanView::Remux(path, dir) => {
                &&& foreseen(data, input, request, mode) matches Ok(list)
                &&& list[0] == path
                &&& dir matches Some(d) ==> (raw_outputs(data, input, d) matches Ok(raw) ==> list
                    == seq![path] + raw)
            },
            PlanView::Raw(dir) => foreseen(data, input, request, mode) == (match raw_outputs(
                data,
                input,
                dir,
            ) {
                Ok(raw) => Ok::<Seq<OutputView>, TaskError>(raw),
                Err(e) => Err(TaskError::Demux(e)),
            }),
        },
{
}

/// Every input has a file name.
pub open spec fn all_named(inputs: Seq<FilePath>) -> bool {
    forall|i: int| 0 <= i < inputs.len() ==> (#[trigger] inputs[i])@.name is Some
}

/// Where the packed forms of some inputs go, in their order. Fails where an
/// input has no file name.
pub fn plan_pack_outputs(inputs: &Vec<FilePath>, output: Option<&FilePath>, batch: bool) -> (result:
    Result<Vec<OutputPath>, PathError>)
    ensures
        if all_named(inputs@) {
            &&& result matches Ok(paths)
            &&& paths@.len() == inputs@.len()
            &&& forall|i: int|
                0 <= i < paths@.len() ==> Ok::<OutputView, PathError>((#[trigger] paths@[i])@)
                    == pack_output(inputs@[i]@, path_view(output), batch)
        } else {
            result == Err::<Vec<OutputPath>, PathError>(PathError::NoFileName)
        },
{
    let mut paths: Vec<OutputPath> = Vec::new();
    let mut i: usize = 0;
    while i < inputs.len()
        invariant
            i <= inputs@.len(),
            paths@.len() == i,
            forall|k: int| 0 <= k < i ==> (#[trigger] inputs@[k])@.name is Some,
            forall|k: int|
                0 <= k < i ==> Ok::<OutputView, PathError>((#[trigger] paths@[k])@) == pack_output(
                    inputs@[k]@,
                    path_view(output),
                    batch,
                ),
        decreases inputs@.len() - i,
    {
        match pack_output_path(&inputs[i], output, batch) {
            Ok(path) => {
                paths.push(path);
            },
            Err(e) => {
                assert(inputs@[i as int]@.name is None);
                return Err(e);
            },
        }
        i += 1;
    }
    Ok(paths)
}

/// A planned output with what the file system says of it.
pub struct OutputCheck {
    /// The absolute form of the input.
    pub input: Vec<u8>,
    /// The absolute form of the output.
    pub output: Vec<u8>,
    /// There is something at the output path.
    pub output_exists: bool,
    /// There is something at the temporary path.
    pub temp_exists: bool,
}

/// Whether an output may be written.
pub open spec fn check_verdict(check: OutputCheck) -> Result<(), PathError> {
    if check.input@ == check.output@ {
        Err(PathError::WouldOverwriteInput)
    } else if check.output_exists {
        Err(PathError::OutputExists)
    } else if check.temp_exists {
        Err(PathError::TempExists)
    } else {
        Ok(())
    }
}

/// Whether an output may be written: it is not its input, and nothing is there
/// or at its temporary path.
pub fn check_output(check: &OutputCheck) -> (result: Result<(), PathError>)
    ensures
        result == check_verdict(*check),
{
    ensure_output_available(&check.input, &check.output, check.output_exists)?;
    ensure_temp_available(check.temp_exists)
}

/// Why a pack command is refused before it starts.
#[derive(Clone, Copy, Debug, PartialEq, Eq, Structural)]
pub enum PreflightError {
    /// Two of the outputs are one file.
    Planned(PathError),
    /// The output at this position may not be written.
    Refused(usize, PathError),
}

/// Whether the planned outputs of a pack command may all be written. Fails
/// where two are one file, and otherwise at the first that may not be written.
pub fn preflight_pack_outputs(planned: &Vec<PlannedOutput>, checks: &Vec<OutputCheck>) -> (result:
    Result<(), PreflightError>)
    ensures
        match result {
            Ok(()) => {
                &&& all_distinct(planned@, planned@.len() as int)
                &&& forall|i: int|
                    0 <= i < checks@.len() ==> check_verdict(#[trigger] checks@[i]) is Ok
            },
            Err(PreflightError::Planned(e)) => collision_verdict(planned@, Err(e)),
            Err(PreflightError::Refused(at, e)) => {
                &&& all_distinct(planned@, planned@.len() as int)
                &&& at < checks@.len()
                &&& check_verdict(checks@[at as int]) == Err::<(), PathError>(e)
                &&& forall|i: int| 0 <= i < at ==> check_verdict(#[trigger] checks@[i]) is Ok
            },
        },
{
    match ensure_no_output_collisions(planned) {
        Ok(()) => {},
        Err(e) => {
            return Err(PreflightError::Planned(e));
        },
    }
    let mut i: usize = 0;
    while i < checks.len()
        invariant
            i <= checks@.len(),
            all_distinct(planned@, planned@.len() as int),
            forall|k: int| 0 <= k < i ==> check_verdict(#[trigger] checks@[k]) is Ok,
        decreases checks@.len() - i,
    {
        match check_output(&checks[i]) {
            Ok(()) => {},
            Err(e) => {
                return Err(PreflightError::Refused(i, e));
            },
        }
        i += 1;
    }
    Ok(())
}

/// The outputs that could be foreseen, each with the position of its input.
pub open spec fn foreseen_outputs(plans: Seq<Result<Vec<OutputPath>, TaskError>>, count: int) -> Seq<
    (usize, OutputView),
>
    decreases count,
{
    if count <= 0 {
        Seq::empty()
    } else {
        let before = foreseen_outputs(plans, count - 1);
        match plans[count - 1] {
            Ok(paths) => before + output_views(paths@).map_values(
                |p: OutputView| ((count - 1) as usize, p),
            ),
            Err(_) => before,
        }
    }
}

/// The contents of a list of outputs with the positions of their inputs.
pub open spec fn numbered_views(outputs: Seq<(usize, OutputPath)>) -> Seq<(usize, OutputView)> {
    outputs.map_values(|o: (usize, OutputPath)| (o.0, o.1@))
}

/// The outputs that could be foreseen for some inputs, in order, each with the
/// position of its input. Inputs whose outputs could not be told are passed
/// over: what is wrong with them shows when their turn comes.
pub fn preflight_extract_outputs(plans: &Vec<Result<Vec<OutputPath>, TaskError>>) -> (outputs: Vec<
    (usize, OutputPath),
>)
    ensures
        numbered_views(outputs@) == foreseen_outputs(plans@, plans@.len() as int),
{
    let mut outputs: Vec<(usize, OutputPath)> = Vec::new();
    let mut i: usize = 0;
    assert(numbered_views(outputs@) =~= Seq::<(usize, OutputView)>::empty());
    while i < plans.len()
        invariant
            i <= plans@.len(),
            numbered_views(outputs@) == foreseen_outputs(plans@, i as int),
        decreases plans@.len() - i,
    {
        if let Ok(paths) = &plans[i] {
            let ghost before = numbered_views(outputs@);
            let ghost more = output_views(paths@).map_values(|p: OutputView| (i, p));
            let mut k: usize = 0;
            assert(numbered_views(outputs@) =~= before + more.take(0));
            while k < paths.len()
                invariant
                    k <= paths@.len(),
                    more == output_views(paths@).map_values(|p: OutputView| (i, p)),
                    numbered_views(outputs@) == before + more.take(k as int),
                decreases paths@.len() - k,
            {
                let ghost so_far = outputs@;
                outputs.push((i, paths[k].duplicate()));
                proof {
                    let added = (i, output_views(paths@)[k as int]);
                    assert(numbered_views(outputs@) =~= numbered_views(so_far).push(added));
                    assert(more.take(k + 1) =~= more.take(k as int).push(added));
                }
                k += 1;
                assert(numbered_views(outputs@) =~= before + more.take(k as int));
            }
            assert(more.take(k as int) =~= more);
        }
        i += 1;
    }
    outputs
}

} // verus!
