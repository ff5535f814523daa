use vstd::prelude::*;

verus! {

/// Why a command of the command line front end failed.
#[derive(Clone, Copy, Debug, PartialEq, Eq, Structural)]
pub enum ErrorCode {
    UnsafeArgs,
    InvalidArgs,
    InitializeLogger,
    CreateRepository,
    LoadRepository,
    SaveBackup,
    LoadBackup,
    LoadInode,
    LoadBundle,
    NoSuchBackup,
    BackupAlreadyExists,
    AddKey,
    LoadKey,
    SaveKey,
    SaveConfig,
    LoadExcludes,
    InvalidExcludes,
    BackupRun,
    RestoreRun,
    RemoveRun,
    PruneRun,
    VacuumRun,
    CheckRun,
    AnalyzeRun,
    DiffRun,
    VersionsRun,
    ImportRun,
    FuseMount,
}

/// The failure classes that the exit codes fall into.
#[derive(Clone, Copy, Debug, PartialEq, Eq, Structural)]
pub enum ErrorClass {
    /// The front end itself could not get going.
    Internal,
    /// The arguments cannot be used.
    Arguments,
    /// Something could not be loaded.
    Load,
    /// Something small could not be saved or added.
    Save,
    /// A main operation failed while it ran.
    Run,
    /// A snapshot name is missing or taken.
    Naming,
}

impl ErrorCode {
    /// The class of a failure.
    pub open spec fn class(self) -> ErrorClass {
        match self {
            ErrorCode::InitializeLogger | ErrorCode::InvalidExcludes => ErrorClass::Internal,
            ErrorCode::InvalidArgs | ErrorCode::UnsafeArgs => ErrorClass::Arguments,
            ErrorCode::LoadRepository
            | ErrorCode::LoadBackup
            | ErrorCode::LoadInode
            | ErrorCode::LoadBundle
            | ErrorCode::LoadKey
            | ErrorCode::LoadExcludes => ErrorClass::Load,
            ErrorCode::SaveBackup
            | ErrorCode::AddKey
            | ErrorCode::SaveKey
            | ErrorCode::SaveConfig => ErrorClass::Save,
            ErrorCode::CreateRepository
            | ErrorCode::BackupRun
            | ErrorCode::RestoreRun
            | ErrorCode::RemoveRun
            | ErrorCode::PruneRun
            | ErrorCode::VacuumRun
            | ErrorCode::CheckRun
            | ErrorCode::AnalyzeRun
            | ErrorCode::DiffRun
            | ErrorCode::VersionsRun
            | ErrorCode::ImportRun
            | ErrorCode::FuseMount => ErrorClass::Run,
            ErrorCode::NoSuchBackup | ErrorCode::BackupAlreadyExists => ErrorClass::Naming,
        }
    }

    /// The exit code of a failure, as a number.
    pub open spec fn exit_code(self) -> int {
        match self {
            ErrorCode::InitializeLogger | ErrorCode::InvalidExcludes => -1,
            ErrorCode::InvalidArgs => 1,
            ErrorCode::UnsafeArgs => 2,
            ErrorCode::LoadRepository => 3,
            ErrorCode::LoadBackup => 4,
            ErrorCode::LoadInode => 5,
            ErrorCode::LoadBundle => 6,
            ErrorCode::LoadKey => 7,
            ErrorCode::LoadExcludes => 8,
            ErrorCode::SaveBackup => 9,
            ErrorCode::AddKey => 10,
            ErrorCode::SaveKey => 11,
            ErrorCode::SaveConfig => 12,
            ErrorCode::CreateRepository => 13,
            ErrorCode::BackupRun => 14,
            ErrorCode::RestoreRun => 15,
            ErrorCode::RemoveRun => 16,
            ErrorCode::PruneRun => 17,
            ErrorCode::VacuumRun => 18,
            ErrorCode::CheckRun => 19,
            ErrorCode::AnalyzeRun => 20,
            ErrorCode::DiffRun => 21,
            ErrorCode::VersionsRun => 22,
            ErrorCode::ImportRun => 23,
            ErrorCode::FuseMount => 24,
            ErrorCode::NoSuchBackup => 25,
            ErrorCode::BackupAlreadyExists => 26,
        }
    }

    /// The exit code of a failure. No code is 0, and the codes of a class lie together:
    /// -1 for the front end's own failures, 1 and 2 for arguments, 3 to 8 for loading, 9 to
    /// 12 for saving, 13 to 24 for the main operations, 25 and 26 for snapshot names.
    pub fn code(&self) -> (c: i32)
        ensures
            c == self.exit_code(),
            c != 0,
            match self.class() {
                ErrorClass::Internal => c == -1,
                ErrorClass::Arguments => 1 <= c <= 2,
                ErrorClass::Load => 3 <= c <= 8,
                ErrorClass::Save => 9 <= c <= 12,
                ErrorClass::Run => 13 <= c <= 24,
                ErrorClass::Naming => 25 <= c <= 26,
            },
    {
        match *self {
            ErrorCode::InitializeLogger | ErrorCode::InvalidExcludes => -1,
            ErrorCode::InvalidArgs => 1,
            ErrorCode::UnsafeArgs => 2,
            ErrorCode::LoadRepository => 3,
            ErrorCode::LoadBackup => 4,
            ErrorCode::LoadInode => 5,
            ErrorCode::LoadBundle => 6,
            ErrorCode::LoadKey => 7,
            ErrorCode::LoadExcludes => 8,
            ErrorCode::SaveBackup => 9,
            ErrorCode::AddKey => 10,
            ErrorCode::SaveKey => 11,
            ErrorCode::SaveConfig => 12,
            ErrorCode::CreateRepository => 13,
            ErrorCode::BackupRun => 14,
            ErrorCode::RestoreRun => 15,
            ErrorCode::RemoveRun => 16,
            ErrorCode::PruneRun => 17,
            ErrorCode::VacuumRun => 18,
            ErrorCode::CheckRun => 19,
            ErrorCode::AnalyzeRun => 20,
            ErrorCode::DiffRun => 21,
            ErrorCode::VersionsRun => 22,
            ErrorCode::ImportRun => 23,
            ErrorCode::FuseMount => 24,
            ErrorCode::NoSuchBackup => 25,
            ErrorCode::BackupAlreadyExists => 26,
        }
    }

    /// Two failures with the same exit code are of the same class.
    pub proof fn lemma_code_class(a: ErrorCode, b: ErrorCode)
        requires
            a.exit_code() == b.exit_code(),
        ensures
            a.class() == b.class(),
    {
    }
}

} // verus!
