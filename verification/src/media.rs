//! Remuxing by an outside program: how it is called, and how its run is judged.

use vstd::prelude::*;

verus! {

/// One argument of the outside program.
#[derive(Debug, PartialEq, Eq)]
pub enum RemuxArg {
    Word(&'static str),
    Input,
    Output,
}

/// Why there is no MP4 file.
#[derive(Clone, Copy, Debug, PartialEq, Eq, Structural)]
pub enum RemuxError {
    /// The program could not be started.
    NotStarted,
    /// The program reported failure.
    Failed,
    /// The program reported success and left no file.
    NoOutput,
    /// The program left an empty file.
    EmptyOutput,
}

/// What became of a run of the program.
#[derive(Clone, Copy, Debug, PartialEq, Eq, Structural)]
pub enum RemuxRun {
    NotStarted,
    Exited { success: bool },
}

/// Whether a run of the program gave an MP4 file that may be kept.
pub open spec fn remux_verdict(run: RemuxRun, output_len: Option<u64>) -> Result<(), RemuxError> {
    match run {
        RemuxRun::NotStarted => Err(RemuxError::NotStarted),
        RemuxRun::Exited { success } => if !success {
            Err(RemuxError::Failed)
        } else {
            match output_len {
                None => Err(RemuxError::NoOutput),
                Some(len) => if len == 0 {
                    Err(RemuxError::EmptyOutput)
                } else {
                    Ok(())
                },
            }
        },
    }
}

/// Whether a run of the program gave an MP4 file that may be kept: it was
/// started, it reported success, and it left a file that is not empty.
pub fn judge_remux(run: RemuxRun, output_len: Option<u64>) -> (result: Result<(), RemuxError>)
    ensures
        result == remux_verdict(run, output_len),
{
    match run {
        RemuxRun::NotStarted => Err(RemuxError::NotStarted),
        RemuxRun::Exited { success } => {
            if !success {
                return Err(RemuxError::Failed);
            }
            match output_len {
                None => Err(RemuxError::NoOutput),
                Some(len) => {
                    if len == 0 {
                        Err(RemuxError::EmptyOutput)
                    } else {
                        Ok(())
                    }
                },
            }
        },
    }
}

/// The arguments with which the program copies all streams of the input into an
/// MP4 file whose index stands at its head.
pub fn remux_args() -> (args: Vec<RemuxArg>)
    ensures
        args@ == seq![
            RemuxArg::Word("-hide_banner"),
            RemuxArg::Word("-loglevel"),
            RemuxArg::Word("error"),
            RemuxArg::Word("-nostdin"),
            RemuxArg::Word("-y"),
            RemuxArg::Word("-i"),
            RemuxArg::Input,
            RemuxArg::Word("-c"),
            RemuxArg::Word("copy"),
            RemuxArg::Word("-movflags"),
            RemuxArg::Word("+faststart"),
            RemuxArg::Output,
        ],
{
    let args: Vec<RemuxArg> = vec![
        RemuxArg::Word("-hide_banner"),
        RemuxArg::Word("-loglevel"),
        RemuxArg::Word("error"),
        RemuxArg::Word("-nostdin"),
        RemuxArg::Word("-y"),
        RemuxArg::Word("-i"),
        RemuxArg::Input,
        RemuxArg::Word("-c"),
        RemuxArg::Word("copy"),
        RemuxArg::Word("-movflags"),
        RemuxArg::Word("+faststart"),
        RemuxArg::Output,
    ];
    args
}

/// An MP4 file is kept if and only if the program ran, reported success and left
/// a file that is not empty; otherwise the error tells which of these was
/// missing first.
pub proof fn law_remux_must_leave_a_file(run: RemuxRun, output_len: Option<u64>)
    ensures
        remux_verdict(run, output_len) is Ok <==> run == (RemuxRun::Exited { success: true }) && (
        output_len matches Some(len) && len > 0),
        run == RemuxRun::NotStarted ==> remux_verdict(run, output_len) == Err::<(), RemuxError>(
            RemuxError::NotStarted,
        ),
        run == (RemuxRun::Exited { success: false }) ==> remux_verdict(run, output_len) == Err::<
            (),
            RemuxError,
        >(RemuxError::Failed),
        run == (RemuxRun::Exited { success: true }) && output_len is None ==> remux_verdict(
            run,
            output_len,
        ) == Err::<(), RemuxError>(RemuxError::NoOutput),
        run == (RemuxRun::Exited { success: true }) && output_len == Some(0u64) ==> remux_verdict(
            run,
            output_len,
        ) == Err::<(), RemuxError>(RemuxError::EmptyOutput),
{
}

} // verus!
