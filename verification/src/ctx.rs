//! The public faces of an operation's outcome: the reduced view of a
//! profile handed to the command layer, and the error taxonomy every core
//! operation reports through.

use vstd::prelude::*;

use crate::creds::Credentials;
use crate::model::{lookup_items, StoreV};

verus! {

/// A profile as the command layer sees it: its name and whether it is the
/// active one.
#[derive(Clone, Debug)]
pub struct Context {
    pub name: String,
    pub active: bool,
}

#[verifier::ext_equal]
pub ghost struct ContextV {
    pub name: Seq<char>,
    pub active: bool,
}

impl View for Context {
    type V = ContextV;

    open spec fn view(&self) -> ContextV {
        ContextV { name: self.name@, active: self.active }
    }
}

/// Everything that can go wrong in a core operation.
#[derive(Debug)]
pub enum CTXError {
    /// The credentials file could not be read.
    CannotReadCredentials,
    /// The credentials file could not be written.
    CannotWriteCredentials,
    /// The credentials file has no recognizable sections or breaks the
    /// row grammar.
    CredentialsIsBroken,
    /// The auth configuration or its script is unusable.
    InvalidConfigurations { message: String },
    /// No profile is mirrored into the `default` section.
    NoActiveContext,
    /// No auth command is configured for the profile, not even a wildcard.
    NoAuthConfiguration { profile: String },
    /// The interactive picker was dismissed without a choice.
    NoContextIsSelected,
    /// The named profile does not exist in the credentials file.
    NoSuchProfile { profile: String },
    /// A failure outside the categories above.
    UnexpectedError,
}

/// The human-readable message for each failure.
pub open spec fn message_of(e: &CTXError) -> Seq<char> {
    match e {
        CTXError::CannotReadCredentials => "cannot read credentials, check your ~/.aws/credentials file"@,
        CTXError::CannotWriteCredentials => "cannot write credentials, check your ~/.aws/credentials file"@,
        CTXError::CredentialsIsBroken => "broken credentials, check your ~/.aws/credentials file"@,
        CTXError::InvalidConfigurations { message } => "invalid configurations: "@ + message@,
        CTXError::NoActiveContext => "no active context"@,
        CTXError::NoAuthConfiguration { profile } => "no auth configuration found for the profile: "@ + profile@,
        CTXError::NoContextIsSelected => "no context is selected"@,
        CTXError::NoSuchProfile { profile } => "no such profile: "@ + profile@,
        CTXError::UnexpectedError => "unexpected error occurred"@,
    }
}

impl CTXError {
    /// Renders the failure for a person, profile names included.
    pub fn message(&self) -> (r: String)
        ensures
            r@ == message_of(self),
    {
        match self {
            CTXError::CannotReadCredentials => String::from_str(
                "cannot read credentials, check your ~/.aws/credentials file",
            ),
            CTXError::CannotWriteCredentials => String::from_str(
                "cannot write credentials, check your ~/.aws/credentials file",
            ),
            CTXError::CredentialsIsBroken => String::from_str(
                "broken credentials, check your ~/.aws/credentials file",
            ),
            CTXError::InvalidConfigurations { message } => {
                let mut r = String::from_str("invalid configurations: ");
                r.append(message.as_str());
                r
            },
            CTXError::NoActiveContext => String::from_str("no active context"),
            CTXError::NoAuthConfiguration { profile } => {
                let mut r = String::from_str(
                    "no auth configuration found for the profile: ",
                );
                r.append(profile.as_str());
                r
            },
            CTXError::NoContextIsSelected => String::from_str("no context is selected"),
            CTXError::NoSuchProfile { profile } => {
                let mut r = String::from_str("no such profile: ");
                r.append(profile.as_str());
                r
            },
            CTXError::UnexpectedError => String::from_str("unexpected error occurred"),
        }
    }
}

/// Every profile of a loaded store as a context, in name order, flagged
/// active exactly when mirrored into `default`.
pub fn list_contexts(creds: &Credentials) -> (r: Vec<Context>)
    requires
        creds.wf(),
    ensures
        r@.len() == creds@.sections.len(),
        forall|i: int|
            0 <= i < r@.len() ==> {
                &&& (#[trigger] r@[i])@.name == creds@.sections[i].name
                &&& (r@[i]@.active <==> creds@.active == Option::Some(
                    creds@.sections[i].name,
                ))
            },
{
    let profiles = creds.list_profiles();
    let mut r: Vec<Context> = Vec::new();
    let mut i: usize = 0;
    while i < profiles.len()
        invariant
            0 <= i <= profiles@.len(),
            r@.len() == i,
            profiles@.len() == creds@.sections.len(),
            forall|j: int|
                0 <= j < profiles@.len() ==> {
                    &&& (#[trigger] profiles@[j])@.name == creds@.sections[j].name
                    &&& (profiles@[j]@.default <==> creds@.active == Option::Some(
                        creds@.sections[j].name,
                    ))
                },
            forall|j: int|
                0 <= j < i ==> {
                    &&& (#[trigger] r@[j])@.name == creds@.sections[j].name
                    &&& (r@[j]@.active <==> creds@.active == Option::Some(
                        creds@.sections[j].name,
                    ))
                },
        decreases profiles@.len() - i,
    {
        r.push(Context { name: profiles[i].name.clone(), active: profiles[i].default });
        i += 1;
    }
    r
}

/// The active profile of a loaded store as a context; fails with
/// `NoActiveContext` exactly when no profile is active.
pub fn get_active_context(creds: &Credentials) -> (r: Result<Context, CTXError>)
    requires
        creds.wf(),
    ensures
        match r {
            Result::Ok(c) => creds@.active == Option::Some(c@.name) && c@.active,
            Result::Err(e) => creds@.active is None && (e is NoActiveContext),
        },
{
    match creds.get_default_profile() {
        Result::Ok(p) => Result::Ok(Context { name: p.name, active: p.default }),
        Result::Err(e) => Result::Err(e),
    }
}

/// Marks the named profile active in the loaded store; the caller then
/// writes the store back. Fails with `NoSuchProfile`, leaving the store
/// unchanged, exactly when the name is unknown.
pub fn use_context(creds: &mut Credentials, name: &str) -> (r: Result<Context, CTXError>)
    requires
        old(creds).wf(),
    ensures
        final(creds).wf(),
        match r {
            Result::Ok(c) => {
                &&& final(creds)@ == (StoreV {
                    sections: old(creds)@.sections,
                    active: Option::Some(name@),
                })
                &&& c@.name == name@
                &&& c@.active
            },
            Result::Err(e) => {
                &&& *final(creds) == *old(creds)
                &&& lookup_items(old(creds)@.sections, name@) is None
                &&& (e matches CTXError::NoSuchProfile { profile } && profile@ == name@)
            },
        },
{
    match creds.set_default_profile(name) {
        Result::Ok(p) => Result::Ok(Context { name: p.name, active: p.default }),
        Result::Err(e) => Result::Err(e),
    }
}

/// The decision closing an interactive pick: a chosen name is handed on,
/// a dismissed picker is the benign `NoContextIsSelected`.
pub fn confirm_selection(selection: Option<String>) -> (r: Result<String, CTXError>)
    ensures
        match r {
            Result::Ok(n) => selection == Option::Some(n),
            Result::Err(e) => selection is None && (e is NoContextIsSelected),
        },
{
    match selection {
        Option::Some(n) => Result::Ok(n),
        Option::None => Result::Err(CTXError::NoContextIsSelected),
    }
}

} // verus!
