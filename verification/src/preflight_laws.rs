//! What planning a command promises.

use vstd::prelude::*;
use vstd::utf8::encode_utf8;
use vstd::utf8::encode_utf8_decode_utf8;

use crate::custom_ts::probed;
use crate::custom_ts::TsboxError;
use crate::inputs::ExtractMode;
use crate::path_laws::directory_of;
use crate::path_laws::dotted;
use crate::path_laws::is_cut;
use crate::path_laws::law_extracted_file_goes_where_asked;
use crate::path_laws::law_one_extension_is_cut_off;
use crate::path_laws::law_streams_go_where_asked;
use crate::paths::OutputPath;
use crate::paths::OutputView;
use crate::paths::PathError;
use crate::paths::PathView;
use crate::plan::output_views;
use crate::plan::raw_outputs;
use crate::preflight::check_verdict;
use crate::preflight::extract_plan;
use crate::preflight::foreseen;
use crate::preflight::foreseen_outputs;
use crate::preflight::OutputCheck;
use crate::preflight::PlanView;
use crate::preflight::RequestView;
use crate::preflight::TaskError;

verus! {

/// A name may be used as a file name here: where paths are written with
/// backslashes it holds none.
pub open spec fn usable_here(name: Seq<char>, backslash_separates: bool) -> bool {
    backslash_separates ==> !encode_utf8(name).contains(0x5Cu8)
}

/// The output that was given is to be a file: it has an extension, it is no
/// directory, and there is one input.
pub open spec fn asks_for_file(request: RequestView, out_extension: Option<Seq<u8>>) -> bool {
    &&& request.output matches Some(out) && out.name is Some
    &&& out_extension is Some
    &&& !request.output_is_dir
    &&& !request.batch
}

/// Where a single file goes that comes out of an input with this base: to the
/// very path that was given where a file is asked for, else into the directory
/// that was given, or into that of the input.
pub open spec fn asked_place(
    input: PathView,
    request: RequestView,
    out_extension: Option<Seq<u8>>,
    name: Seq<u8>,
) -> OutputView {
    match request.output {
        Some(out) => if asks_for_file(request, out_extension) {
            OutputView::Exact(out.text)
        } else {
            OutputView::InDir(out.text, name)
        },
        None => OutputView::InDir(directory_of(input), name),
    }
}

/// The name of the output falls into its base and extension.
pub open spec fn output_is_cut(
    request: RequestView,
    out_base: Seq<u8>,
    out_extension: Option<Seq<u8>>,
) -> bool {
    request.output matches Some(out) ==> (out.name matches Some(name) ==> is_cut(
        name,
        out_base,
        out_extension,
    ))
}

/// An input that holds a packed file is planned as that file, in every mode: at
/// the very path that was given where a file is asked for, else under the base
/// of the input's name with the extension of the packed file's name.
pub proof fn law_packed_file_is_planned(
    data: Seq<u8>,
    input: PathView,
    request: RequestView,
    mode: ExtractMode,
    base: Seq<u8>,
    extension: Option<Seq<u8>>,
    out_base: Seq<u8>,
    out_extension: Option<Seq<u8>>,
    packed_base: Seq<u8>,
    packed_extension: Option<Seq<u8>>,
)
    requires
        probed(data) matches Ok(Some(metadata)) && usable_here(
            metadata.original_name,
            request.backslash_separates,
        ) && is_cut(encode_utf8(metadata.original_name), packed_base, packed_extension),
        input.name matches Some(name) && is_cut(name, base, extension),
        output_is_cut(request, out_base, out_extension),
    ensures
        ({
            let place = asked_place(input, request, out_extension, dotted(base, packed_extension));
            &&& extract_plan(data, input, request, mode) == Ok::<PlanView, TaskError>(
                PlanView::Container(place),
            )
            &&& foreseen(data, input, request, mode) == Ok::<Seq<OutputView>, TaskError>(
                seq![place],
            )
        }),
{
    let metadata = probed(data).unwrap().unwrap();
    law_one_extension_is_cut_off(
        encode_utf8(metadata.original_name),
        packed_base,
        packed_extension,
    );
    law_extracted_file_goes_where_asked(
        input,
        request.output,
        request.output_is_dir,
        request.batch,
        packed_extension,
        base,
        extension,
        out_base,
        out_extension,
    );
}

/// A transport stream that holds no packed file is remuxed, where that is the
/// mode, to an MP4 file: at the very path that was given where a file is asked
/// for, else under the base of the input's name. The streams, where they are
/// the fallback, go beside that file.
pub proof fn law_other_stream_is_remuxed(
    data: Seq<u8>,
    input: PathView,
    request: RequestView,
    fallback_raw: bool,
    base: Seq<u8>,
    extension: Option<Seq<u8>>,
    out_base: Seq<u8>,
    out_extension: Option<Seq<u8>>,
)
    requires
        probed(data) matches Ok(None),
        input.name matches Some(name) && is_cut(name, base, extension),
        output_is_cut(request, out_base, out_extension),
    ensures
        ({
            let name = base + seq![0x2Eu8] + encode_utf8("mp4"@);
            let place = asked_place(input, request, out_extension, name);
            let dir = match request.output {
                Some(out) => if asks_for_file(request, out_extension) {
                    directory_of(out)
                } else {
                    out.text
                },
                None => directory_of(input),
            };
            extract_plan(data, input, request, ExtractMode::Mp4 { fallback_raw }) == Ok::<
                PlanView,
                TaskError,
            >(
                PlanView::Remux(
                    place,
                    if fallback_raw {
                        Some(dir)
                    } else {
                        None
                    },
                ),
            )
        }),
{
    let mp4 = encode_utf8("mp4"@);
    law_extracted_file_goes_where_asked(
        input,
        request.output,
        request.output_is_dir,
        request.batch,
        Some(mp4),
        base,
        extension,
        out_base,
        out_extension,
    );
    law_streams_go_where_asked(
        input,
        request.output,
        request.output_is_dir,
        request.batch,
        out_base,
        out_extension,
    );
    reveal_strlit("mp4");
    assert(mp4.len() > 0) by {
        if mp4.len() == 0 {
            encode_utf8_decode_utf8("mp4"@);
            encode_utf8_decode_utf8(Seq::<char>::empty());
            assert(encode_utf8(Seq::<char>::empty()) =~= mp4);
            assert("mp4"@.len() == 3);
        }
    }
}

/// Where the streams are asked for, and the input holds no packed file or
/// cannot be probed, they are taken out, into the directory that was given or
/// that of the input.
pub proof fn law_raw_mode_takes_the_streams(data: Seq<u8>, input: PathView, request: RequestView)
    requires
        match probed(data) {
            Ok(Some(metadata)) => !usable_here(metadata.original_name, request.backslash_separates),
            _ => true,
        },
    ensures
        extract_plan(data, input, request, ExtractMode::Raw) == Ok::<PlanView, TaskError>(
            PlanView::Raw(
                match request.output {
                    Some(out) => out.text,
                    None => directory_of(input),
                },
            ),
        ),
{
}

/// Where no streams are asked for, an input that cannot be probed is refused
/// for that reason, and so is a packed file whose name would be a path here.
pub proof fn law_unreadable_input_is_refused(
    data: Seq<u8>,
    input: PathView,
    request: RequestView,
    fallback_raw: bool,
)
    ensures
        ({
            let plan = extract_plan(data, input, request, ExtractMode::Mp4 { fallback_raw });
            &&& probed(data) matches Err(e) ==> plan == Err::<PlanView, TaskError>(
                TaskError::Tsbox(e),
            )
            &&& probed(data) matches Ok(Some(metadata)) ==> !usable_here(
                metadata.original_name,
                request.backslash_separates,
            ) ==> plan == Err::<PlanView, TaskError>(TaskError::Tsbox(TsboxError::NotBasename))
        }),
{
}

/// How many outputs the first `count` plans have together.
pub open spec fn planned_before(
    plans: Seq<Result<Vec<OutputPath>, TaskError>>,
    count: int,
) -> int
    decreases count,
{
    if count <= 0 {
        0
    } else {
        planned_before(plans, count - 1) + match plans[count - 1] {
            Ok(paths) => paths@.len() as int,
            Err(_) => 0,
        }
    }
}

/// The `k`-th output of the `i`-th plan is listed behind all outputs of the
/// plans before it, with the position of its input.
pub open spec fn is_listed(
    plans: Seq<Result<Vec<OutputPath>, TaskError>>,
    all: Seq<(usize, OutputView)>,
    i: int,
    k: int,
) -> bool {
    let at = planned_before(plans, i) + k;
    0 <= at < all.len() && all[at] == (i as usize, plans[i].unwrap()@[k]@)
}

/// An entry of a list is an output of the plan at its position.
pub open spec fn is_planned(
    plans: Seq<Result<Vec<OutputPath>, TaskError>>,
    entry: (usize, OutputView),
) -> bool {
    let i = entry.0 as int;
    0 <= i < plans.len() && plans[i] is Ok && output_views(plans[i].unwrap()@).contains(entry.1)
}

/// Every output that could be foreseen is listed with the position of its
/// input, in order, whatever the other plans are: an input that could not be
/// planned takes nothing away and adds nothing.
pub proof fn law_every_foreseen_output_is_listed(plans: Seq<Result<Vec<OutputPath>, TaskError>>)
    requires
        plans.len() <= usize::MAX,
    ensures
        ({
            let all = foreseen_outputs(plans, plans.len() as int);
            &&& all.len() == planned_before(plans, plans.len() as int)
            &&& forall|i: int, k: int|
                0 <= i < plans.len() && plans[i] is Ok && 0 <= k < plans[i].unwrap()@.len()
                    ==> #[trigger] is_listed(plans, all, i, k)
            &&& forall|at: int| 0 <= at < all.len() ==> is_planned(plans, #[trigger] all[at])
        }),
{
    lemma_listed_before(plans, plans.len() as int);
}

/// What is listed of the first `count` plans.
proof fn lemma_listed_before(plans: Seq<Result<Vec<OutputPath>, TaskError>>, count: int)
    requires
        0 <= count <= plans.len() <= usize::MAX,
    ensures
        ({
            let all = foreseen_outputs(plans, count);
            &&& all.len() == planned_before(plans, count)
            &&& forall|i: int, k: int|
                0 <= i < count && plans[i] is Ok && 0 <= k < plans[i].unwrap()@.len()
                    ==> #[trigger] is_listed(plans, all, i, k)
            &&& forall|at: int| 0 <= at < all.len() ==> is_planned(plans, #[trigger] all[at])
        }),
    decreases count,
{
    if count > 0 {
        lemma_listed_before(plans, count - 1);
        let before = foreseen_outputs(plans, count - 1);
        let all = foreseen_outputs(plans, count);
        match plans[count - 1] {
            Ok(paths) => {
                let views = output_views(paths@);
                let more = views.map_values(|p: OutputView| ((count - 1) as usize, p));
                assert(all == before + more);
                assert forall|at: int| 0 <= at < all.len() implies is_planned(
                    plans,
                    #[trigger] all[at],
                ) by {
                    if at < before.len() {
                        assert(all[at] == before[at]);
                    } else {
                        assert(views[at - before.len()] == all[at].1);
                    }
                }
                assert forall|i: int, k: int|
                    0 <= i < count && plans[i] is Ok && 0 <= k
                        < plans[i].unwrap()@.len() implies #[trigger] is_listed(
                    plans,
                    all,
                    i,
                    k,
                ) by {
                    if i < count - 1 {
                        assert(is_listed(plans, before, i, k));
                    } else {
                        assert(more[k] == (i as usize, views[k]));
                        assert(all[before.len() + k] == more[k]);
                    }
                }
            },
            Err(_) => {
                assert(all == before);
            },
        }
    }
}

/// An output may be written if and only if it is not its input, and nothing is
/// at its path or at its temporary path.
pub proof fn law_output_must_be_free(check: OutputCheck)
    ensures
        check_verdict(check) is Ok <==> check.input@ != check.output@ && !check.output_exists
            && !check.temp_exists,
        check.input@ == check.output@ ==> check_verdict(check) == Err::<(), PathError>(
            PathError::WouldOverwriteInput,
        ),
        check.input@ != check.output@ && check.output_exists ==> check_verdict(check) == Err::<
            (),
            PathError,
        >(PathError::OutputExists),
        check.input@ != check.output@ && !check.output_exists && check.temp_exists
            ==> check_verdict(check) == Err::<(), PathError>(PathError::TempExists),
{
}

/// What is foreseen of a stream that is remuxed or taken apart: the MP4 file,
/// and the streams where they are the fallback and can be told; or the streams
/// alone. An input that cannot be probed has no outputs that could be foreseen.
pub proof fn law_outputs_are_foreseen(
    data: Seq<u8>,
    input: PathView,
    request: RequestView,
    mode: ExtractMode,
)
    ensures
        probed(data) matches Ok(None) ==> match extract_plan(data, input, request, mode) {
            Err(e) => foreseen(data, input, request, mode) == Err::<Seq<OutputView>, TaskError>(e),
            Ok(PlanView::Raw(dir)) => match raw_outputs(data, input, dir) {
                Ok(raw) => foreseen(data, input, request, mode) == Ok::<Seq<OutputView>, TaskError>(
                    raw,
                ),
                Err(e) => foreseen(data, input, request, mode) == Err::<
                    Seq<OutputView>,
                    TaskError,
                >(TaskError::Demux(e)),
            },
            Ok(PlanView::Remux(path, Some(dir))) => foreseen(data, input, request, mode) == Ok::<
                Seq<OutputView>,
                TaskError,
            >(
                seq![path] + match raw_outputs(data, input, dir) {
                    Ok(raw) => raw,
                    Err(_) => Seq::empty(),
                },
            ),
            Ok(PlanView::Remux(path, None)) => foreseen(data, input, request, mode) == Ok::<
                Seq<OutputView>,
                TaskError,
            >(seq![path]),
            Ok(PlanView::Container(_)) => true,
        },
        probed(data) matches Err(e) ==> foreseen(data, input, request, mode) == Err::<
            Seq<OutputView>,
            TaskError,
        >(TaskError::Tsbox(e)),
{
}

} // verus!
