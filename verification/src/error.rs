//! Why reading a game file can come to a stop.
use vstd::prelude::*;

verus! {

/// A game file that is refused.
#[derive(Debug, Clone, Copy, PartialEq, Eq, Structural)]
pub enum ExtractError {
    /// The data ends inside something that has to be read whole.
    UnexpectedEof,
    /// A count or a length is negative.
    OutOfRange,
    /// The index lacks one of the five lists it has to hold.
    IndexIncomplete,
    /// A room stands at a place that the index does not know.
    LflNotInIndex,
    /// A sound stands at a place that the index does not know.
    SoundNotInIndex,
    /// A talkie stands at a place that the index does not know.
    TalkieNotInIndex,
    /// A global script stands at a place that the index does not know.
    ScriptNotInIndex,
    /// A local script is too short for its number.
    LocalScriptHeader,
    /// An object header is too short for its number.
    ObjectHeader,
    /// The last block of a container reaches past the container's end.
    MisalignedBlockEnd,
    /// A block holds fewer bytes than its header says.
    WrongLength,
}

impl ExtractError {
    /// The text that is shown for the error.
    pub open spec fn text(self) -> Seq<char> {
        match self {
            ExtractError::UnexpectedEof => "failed to fill whole buffer"@,
            ExtractError::OutOfRange => "out of range integral type conversion attempted"@,
            ExtractError::IndexIncomplete => "index incomplete"@,
            ExtractError::LflNotInIndex => "LFL not in index"@,
            ExtractError::SoundNotInIndex => "sound not in index"@,
            ExtractError::TalkieNotInIndex => "talkie not in index"@,
            ExtractError::ScriptNotInIndex => "script missing from index"@,
            ExtractError::LocalScriptHeader => "local script missing header"@,
            ExtractError::ObjectHeader => "bad object header"@,
            ExtractError::MisalignedBlockEnd => "misaligned block end"@,
            ExtractError::WrongLength => "bug: block reader read wrong length"@,
        }
    }

    /// Returns the text that is shown for the error.
    pub fn message(&self) -> (r: &'static str)
        ensures
            r@ == self.text(),
    {
        match self {
            ExtractError::UnexpectedEof => "failed to fill whole buffer",
            ExtractError::OutOfRange => "out of range integral type conversion attempted",
            ExtractError::IndexIncomplete => "index incomplete",
            ExtractError::LflNotInIndex => "LFL not in index",
            ExtractError::SoundNotInIndex => "sound not in index",
            ExtractError::TalkieNotInIndex => "talkie not in index",
            ExtractError::ScriptNotInIndex => "script missing from index",
            ExtractError::LocalScriptHeader => "local script missing header",
            ExtractError::ObjectHeader => "bad object header",
            ExtractError::MisalignedBlockEnd => "misaligned block end",
            ExtractError::WrongLength => "bug: block reader read wrong length",
        }
    }
}

/// A game file that breaks something every sound file keeps.
///
/// Such data is not refused in an orderly way: whoever meets it has no answer to give.
#[derive(Debug, Clone, Copy, PartialEq, Eq, Structural)]
pub enum Fault {
    /// A block gives itself a length that does not even cover its own header.
    BlockTooShort,
    /// The name of a block is not UTF-8 text.
    BlockIdNotText,
    /// The code of a verb does not lie inside its block.
    VerbRange,
    /// A container holds more blocks of one kind than a block number can count.
    TooManyBlocks,
    /// An index entry that was consulted names a room that is not listed, gives a place that is
    /// no 32-bit offset, or has a number that does not fit.
    IndexEntry,
}

/// How reading can come to a stop before the end of the data.
#[derive(Debug, Clone, Copy, PartialEq, Eq, Structural)]
pub enum Stop {
    Error(ExtractError),
    Fault(Fault),
}

/// Whether a result is owed to a fault.
pub open spec fn faulty<T>(r: Result<T, Stop>) -> bool {
    r matches Err(Stop::Fault(_))
}

/// A result is owed to a fault exactly if it is neither good nor an error.
pub proof fn law_faults_are_no_errors<T>(good: T, error: ExtractError, fault: Fault)
    ensures
        !faulty(Ok::<T, Stop>(good)),
        !faulty(Err::<T, Stop>(Stop::Error(error))),
        faulty(Err::<T, Stop>(Stop::Fault(fault))),
{
}

} // verus!
