use vstd::prelude::*;

verus! {

/// What can go wrong when working with the record table.
#[derive(Clone, Debug, PartialEq, Eq)]
pub enum StoreError {
    /// The record is not a file.
    NotFile { name: String },
    /// The record is not a directory.
    NotDirectory { name: String },
    /// No entry of that name where one was looked for.
    NotFound { name: String },
    /// Decrypted contents do not match the checksum stored in the record.
    CorruptedData { name: String, id: usize },
    /// Encryption or decryption with AES-256-GCM failed.
    Cipher,
    /// Deriving a key from the user's password failed.
    KeyDerivation,
    /// Hashing the user's password into its PHC string failed.
    PasswordHash,
    /// Snappy compression or decompression failed.
    Compression,
}

/// A `StoreError` with its names taken as character sequences.
pub enum ErrorView {
    NotFile { name: Seq<char> },
    NotDirectory { name: Seq<char> },
    NotFound { name: Seq<char> },
    CorruptedData { name: Seq<char>, id: usize },
    Cipher,
    KeyDerivation,
    PasswordHash,
    Compression,
}

impl View for StoreError {
    type V = ErrorView;

    open spec fn view(&self) -> ErrorView {
        match self {
            StoreError::NotFile { name } => ErrorView::NotFile { name: name@ },
            StoreError::NotDirectory { name } => ErrorView::NotDirectory { name: name@ },
            StoreError::NotFound { name } => ErrorView::NotFound { name: name@ },
            StoreError::CorruptedData { name, id } => ErrorView::CorruptedData { name: name@, id: *id },
            StoreError::Cipher => ErrorView::Cipher,
            StoreError::KeyDerivation => ErrorView::KeyDerivation,
            StoreError::PasswordHash => ErrorView::PasswordHash,
            StoreError::Compression => ErrorView::Compression,
        }
    }
}

} // verus!
