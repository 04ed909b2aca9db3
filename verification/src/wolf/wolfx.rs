//! WolfX archives (Wolf RPG v3.5+ Pro, ChaCha20): not decrypted here. The
//! protection key is stored only as a hash, so it cannot be recovered from
//! the archive; such games are decrypted with UberWolf first and opened as
//! a plain `Data/` directory.
use vstd::prelude::*;

verus! {

#[derive(Debug, Clone, Copy, PartialEq, Eq, Structural)]
pub enum WolfXError {
    /// WolfX decryption is intentionally not implemented.
    NotSupported,
}

/// The guidance given when a WolfX archive is met.
pub open spec fn wolfx_guidance() -> Seq<char> {
    "this archive uses WolfX encryption (Wolf RPG v3.5+ Pro), which Hoshi2Star does not decrypt. Decrypt the game with UberWolf first, then open the resulting Data/ directory directly"@
}

impl WolfXError {
    /// The guidance shown to the user.
    pub fn message(&self) -> (m: String)
        ensures
            m@ == wolfx_guidance(),
    {
        String::from_str(
            "this archive uses WolfX encryption (Wolf RPG v3.5+ Pro), which Hoshi2Star does not decrypt. Decrypt the game with UberWolf first, then open the resulting Data/ directory directly",
        )
    }
}

/// The place where WolfX decryption would go: always `NotSupported`.
pub fn decrypt(_data: &[u8]) -> (res: Result<Vec<u8>, WolfXError>)
    ensures
        res == Err::<Vec<u8>, WolfXError>(WolfXError::NotSupported),
{
    Err(WolfXError::NotSupported)
}

} // verus!
