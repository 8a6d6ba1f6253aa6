//! The error surface of the store. Each variant is a distinct diagnostic;
//! the contracts of the storage facade say exactly which inputs produce
//! which variant.

use vstd::prelude::*;

verus! {

use crate::policy::PasswordPolicy;

/// What a `NotFound` error refers to.
#[derive(Clone, Copy, Debug, PartialEq, Eq, Structural)]
pub enum NotFoundWhat {
    /// A transaction handle that is not (or no longer) live.
    Transaction,
    /// The reserved wrapped-key entry, required but absent.
    DekEntry,
    /// A value expected under a key.
    Value,
}

/// Everything a storage operation can fail with.
#[derive(Clone, Copy, Debug, PartialEq, Eq, Structural)]
pub enum StorageError {
    /// A key, transaction handle or required reserved entry is absent.
    NotFound(NotFoundWhat),
    /// The engine failed to apply a write.
    WriteError,
    /// The engine failed a read.
    ReadError,
    /// The engine failed to create or open the database.
    CreationError,
    /// The engine failed to commit.
    CommitError,
    /// Bytes were not valid UTF-8 where a string was expected, or a hex or
    /// record decode failed during restore.
    ConversionError,
    /// Structured encode or decode of a value failed.
    SerializationError,
    /// A filesystem action outside the engine failed.
    IoError,
    /// Authenticated encryption of a payload failed.
    FailedToEncryptData,
    /// Authenticated decryption failed: the data does not verify.
    FailedToDecryptData,
    /// A passphrase about to be set or rotated fails the policy; carries the
    /// policy it was held against.
    WeakPassword(PasswordPolicy),
    /// Unwrapping a wrapped key failed: wrong passphrase or tampered blob.
    WrongPassword,
    /// A passphrase rotation was asked of a store opened without one.
    NoPasswordSet,
    /// Reserved for single-global-transaction variants; never produced here.
    GlobalTransactionAlreadyActiveError,
    /// The random generator could not produce key material.
    RandomDekGenerationError,
}

impl StorageError {
    /// A short description, for callers that print errors.
    pub fn message(&self) -> &'static str {
        match self {
            StorageError::NotFound(NotFoundWhat::Transaction) => "Transaction not found",
            StorageError::NotFound(NotFoundWhat::DekEntry) => "DEK not found",
            StorageError::NotFound(NotFoundWhat::Value) => "Value not found",
            StorageError::WriteError => "Error modifying storage",
            StorageError::ReadError => "Error reading from storage",
            StorageError::CreationError => "Error creating storage",
            StorageError::CommitError => "Error while committing changes",
            StorageError::ConversionError => "Error converting data",
            StorageError::SerializationError => "Error serializing/deserializing data",
            StorageError::IoError => "Failed I/O action",
            StorageError::FailedToEncryptData => "Failed to encrypt data",
            StorageError::FailedToDecryptData => "Failed to decrypt data",
            StorageError::WeakPassword(_) => "Password does not meet the policy",
            StorageError::WrongPassword => "Wrong password",
            StorageError::NoPasswordSet => "No password set",
            StorageError::GlobalTransactionAlreadyActiveError => "Transaction already active",
            StorageError::RandomDekGenerationError => "Failed to generate random key material",
        }
    }
}

} // verus!
