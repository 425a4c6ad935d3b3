//! The manifest as kept in the key-value store, and the compare-and-swap
//! rule under which it is written back.
use vstd::prelude::*;

use crate::codec::{base64_decoded, decode_base64};

verus! {

/// One entry of the store: its key, its base64 value and the revision at
/// which it was last written.
#[derive(Debug, PartialEq, Eq)]
pub struct KvEntry {
    pub key: String,
    pub value: String,
    pub modify_index: u64,
}

pub struct KvEntryView {
    pub key: Seq<char>,
    pub value: Seq<char>,
    pub modify_index: u64,
}

impl View for KvEntry {
    type V = KvEntryView;

    open spec fn view(&self) -> KvEntryView {
        KvEntryView { key: self.key@, value: self.value@, modify_index: self.modify_index }
    }
}

pub open spec fn entries_view(v: Seq<KvEntry>) -> Seq<KvEntryView> {
    v.map_values(|e: KvEntry| e@)
}

/// Why the stored manifest could not be read.
#[derive(Debug, Clone, Copy, PartialEq, Eq)]
pub enum ManifestError {
    /// The store answered for the manifest key with no entry at all.
    EmptyResponse,
    /// The stored value is not base64.
    InvalidBase64,
}

/// The manifest's stored value (base64) and the revision token to write
/// back against; token 0 stands for "no manifest stored yet".
#[derive(Debug, PartialEq, Eq)]
pub struct ManifestSnapshot {
    pub value: String,
    pub token: u64,
}

/// The stored value used when the store holds no manifest: the base64 of an
/// empty dependency document.
pub fn default_manifest_value() -> (r: String)
    ensures
        r@ == "e2RlcGVuZGVuY2llczogW119Cg=="@,
{
    String::from_str("e2RlcGVuZGVuY2llczogW119Cg==")
}

/// The snapshot from the answer to a fetch of the manifest key: `None` when
/// the key is absent, else the entries returned.
pub fn snapshot_from_fetch(found: Option<Vec<KvEntry>>) -> (r: Result<ManifestSnapshot, ManifestError>)
    ensures
        match found {
            None => r matches Ok(s) && s.value@ == "e2RlcGVuZGVuY2llczogW119Cg=="@ && s.token == 0,
            Some(v) => if v.len() == 0 {
                r matches Err(ManifestError::EmptyResponse)
            } else {
                r matches Ok(s) && s.value@ == v[0].value@ && s.token == v[0].modify_index
            },
        },
{
    match found {
        None => Ok(ManifestSnapshot { value: default_manifest_value(), token: 0 }),
        Some(v) => {
            if v.len() == 0 {
                Err(ManifestError::EmptyResponse)
            } else {
                Ok(ManifestSnapshot { value: v[0].value.clone(), token: v[0].modify_index })
            }
        },
    }
}

/// The manifest document's bytes, decoded from the snapshot's base64 value.
pub fn manifest_document(snapshot: &ManifestSnapshot) -> (r: Result<Vec<u8>, ManifestError>)
    ensures
        match base64_decoded(snapshot.value@) {
            Some(b) => r matches Ok(d) && d@ == b,
            None => r matches Err(ManifestError::InvalidBase64),
        },
{
    match decode_base64(snapshot.value.as_str()) {
        Ok(b) => Ok(b),
        Err(_) => Err(ManifestError::InvalidBase64),
    }
}

/// The store refused a write because the revision moved since the fetch.
#[derive(Debug, Clone, Copy, PartialEq, Eq)]
pub enum CommitError {
    Conflict,
}

/// Whether the store's reply to a compare-and-swap write reports success.
pub open spec fn reply_accepted(reply: Seq<char>) -> bool {
    reply == "true"@ || reply == "true\n"@
}

/// Reads the store's reply to a compare-and-swap write.
pub fn commit_outcome(reply: &str) -> (r: Result<(), CommitError>)
    ensures
        r is Ok <==> reply_accepted(reply@),
{
    let got = String::from_str(reply);
    if got == String::from_str("true") || got == String::from_str("true\n") {
        Ok(())
    } else {
        Err(CommitError::Conflict)
    }
}

/// One key of a store under compare-and-swap: its value, if any, and the
/// revision of its last write.
#[derive(Debug, PartialEq, Eq)]
pub struct CasRegister {
    pub value: Option<String>,
    pub index: u64,
}

pub struct RegisterView {
    pub value: Option<Seq<char>>,
    pub index: u64,
}

impl View for CasRegister {
    type V = RegisterView;

    open spec fn view(&self) -> RegisterView {
        RegisterView {
            value: match self.value {
                Some(s) => Some(s@),
                None => None,
            },
            index: self.index,
        }
    }
}

/// The token a writer must present: the revision, or 0 while no value is held.
pub open spec fn current_token(r: RegisterView) -> u64 {
    if r.value is None {
        0
    } else {
        r.index
    }
}

/// A compare-and-swap write: with the current token the value is replaced
/// and the revision advances; with any other the write is refused and
/// nothing changes.
pub open spec fn cas_step(r: RegisterView, token: u64, body: Seq<char>) -> (RegisterView, bool) {
    if token == current_token(r) {
        (RegisterView { value: Some(body), index: (r.index + 1) as u64 }, true)
    } else {
        (r, false)
    }
}

impl CasRegister {
    /// A key that holds no value yet.
    pub fn new() -> (r: CasRegister)
        ensures
            r@.value is None,
            r@.index == 0,
    {
        CasRegister { value: None, index: 0 }
    }

    /// The token that a write must present to succeed.
    pub fn token(&self) -> (r: u64)
        ensures
            r == current_token(self@),
    {
        if self.value.is_none() {
            0
        } else {
            self.index
        }
    }

    /// Writes `body` if `token` is current; says whether it did.
    pub fn compare_and_swap(&mut self, token: u64, body: String) -> (ok: bool)
        requires
            old(self).index < u64::MAX,
        ensures
            (final(self)@, ok) == cas_step(old(self)@, token, body@),
    {
        if token == self.token() {
            self.value = Some(body);
            self.index = self.index + 1;
            true
        } else {
            false
        }
    }
}

/// A write with a stale token is always refused and leaves the register's
/// value and revision as they were.
pub proof fn lemma_stale_token_conflicts(r: RegisterView, token: u64, body: Seq<char>)
    requires
        token != current_token(r),
    ensures
        !cas_step(r, token, body).1,
        cas_step(r, token, body).0 == r,
{
}

/// Once a write succeeds, the token it used is stale: a second writer that
/// fetched before it is refused.
pub proof fn lemma_accepted_token_goes_stale(r: RegisterView, token: u64, body: Seq<char>)
    requires
        r.index < u64::MAX,
        cas_step(r, token, body).1,
    ensures
        current_token(cas_step(r, token, body).0) != token,
{
}

} // verus!
