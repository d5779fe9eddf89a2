//! What can go wrong.

use vstd::prelude::*;

verus! {

/// Why a command failed.
#[derive(Debug)]
pub enum RustiqueError {
    /// The configuration file could not be read or written.
    ConfigFileError(String),
    /// Anything else, in words for the user.
    SimpleError(String),
}

/// What an error says.
pub enum ErrorModel {
    ConfigFileError(Seq<char>),
    SimpleError(Seq<char>),
}

impl DeepView for RustiqueError {
    type V = ErrorModel;

    open spec fn deep_view(&self) -> ErrorModel {
        match self {
            RustiqueError::ConfigFileError(text) => ErrorModel::ConfigFileError(text@),
            RustiqueError::SimpleError(text) => ErrorModel::SimpleError(text@),
        }
    }
}

/// A step of loading or saving the configuration file that can fail.
#[derive(Debug, Clone, Copy, PartialEq, Eq, Structural)]
pub enum ConfigStep {
    CreateDir,
    SerializeDefault,
    CreateDefault,
    WriteDefault,
    Open,
    Read,
    Reread,
    SerializeMerged,
    OpenForMerge,
    WriteMerged,
    Serialize,
    Create,
    Write,
}

impl ConfigStep {
    /// What is said where the step fails, before the cause.
    pub open spec fn complaint(self) -> Seq<char> {
        match self {
            ConfigStep::CreateDir => "Failed to create config directory: "@,
            ConfigStep::SerializeDefault => "Failed to serialize default config: "@,
            ConfigStep::CreateDefault => "Failed to create config file at: "@,
            ConfigStep::WriteDefault => "Failed writing config file: "@,
            ConfigStep::Open => "Failed to open config file: "@,
            ConfigStep::Read => "Failed to read config file: "@,
            ConfigStep::Reread => "Failed to re-read config as a toml table: "@,
            ConfigStep::SerializeMerged => "Failed to serialize the merged config: "@,
            ConfigStep::OpenForMerge => "Failed to open config file for the merge: "@,
            ConfigStep::WriteMerged => "Failed to write the merged config: "@,
            ConfigStep::Serialize => "Failed to serialize config: "@,
            ConfigStep::Create => "Failed to create config file: "@,
            ConfigStep::Write => "Failed to write config file: "@,
        }
    }

    /// The error that the step ends in, given its cause.
    pub open spec fn failure(self, cause: Seq<char>) -> ErrorModel {
        ErrorModel::ConfigFileError(self.complaint() + cause)
    }

    /// The error that the step ends in, given its cause.
    pub fn failed(self, cause: &str) -> (r: RustiqueError)
        ensures
            r.deep_view() == self.failure(cause@),
    {
        let complaint = match self {
            ConfigStep::CreateDir => "Failed to create config directory: ",
            ConfigStep::SerializeDefault => "Failed to serialize default config: ",
            ConfigStep::CreateDefault => "Failed to create config file at: ",
            ConfigStep::WriteDefault => "Failed writing config file: ",
            ConfigStep::Open => "Failed to open config file: ",
            ConfigStep::Read => "Failed to read config file: ",
            ConfigStep::Reread => "Failed to re-read config as a toml table: ",
            ConfigStep::SerializeMerged => "Failed to serialize the merged config: ",
            ConfigStep::OpenForMerge => "Failed to open config file for the merge: ",
            ConfigStep::WriteMerged => "Failed to write the merged config: ",
            ConfigStep::Serialize => "Failed to serialize config: ",
            ConfigStep::Create => "Failed to create config file: ",
            ConfigStep::Write => "Failed to write config file: ",
        };
        let mut text = complaint.to_owned();
        text.append(cause);
        RustiqueError::ConfigFileError(text)
    }
}

} // verus!
