//! The auth-command configuration: a mapping from profile name to a shell
//! command template, with a wildcard fallback under `__default`, and the
//! rendering of a template with the profile name substituted for its
//! `{{profile}}` placeholder.

use vstd::prelude::*;

use crate::ctx::CTXError;
use crate::strs::str_eq;

verus! {

/// One profile's auth command template.
pub struct AuthCommand {
    pub profile: String,
    pub script: String,
}

#[verifier::ext_equal]
pub ghost struct AuthCommandV {
    pub profile: Seq<char>,
    pub script: Seq<char>,
}

impl View for AuthCommand {
    type V = AuthCommandV;

    open spec fn view(&self) -> AuthCommandV {
        AuthCommandV { profile: self.profile@, script: self.script@ }
    }
}

/// The user's configuration: auth command templates by profile name.
pub struct Configs {
    pub auth_commands: Vec<AuthCommand>,
}

impl View for Configs {
    type V = Seq<AuthCommandV>;

    open spec fn view(&self) -> Seq<AuthCommandV> {
        self.auth_commands@.map_values(|c: AuthCommand| c@)
    }
}

/// The wildcard key used when a profile has no entry of its own.
pub open spec fn wildcard_key() -> Seq<char> {
    "__default"@
}

/// The first template under `key`, if any.
pub open spec fn lookup_command(cmds: Seq<AuthCommandV>, key: Seq<char>) -> Option<
    Seq<char>,
>
    decreases cmds.len(),
{
    if cmds.len() == 0 {
        Option::None
    } else if cmds[0].profile == key {
        Option::Some(cmds[0].script)
    } else {
        lookup_command(cmds.drop_first(), key)
    }
}

/// The template that applies to `profile`: its own entry when present,
/// else the wildcard entry, else nothing.
pub open spec fn resolve_command(cmds: Seq<AuthCommandV>, profile: Seq<char>) -> Option<
    Seq<char>,
> {
    match lookup_command(cmds, profile) {
        Option::Some(s) => Option::Some(s),
        Option::None => lookup_command(cmds, wildcard_key()),
    }
}

proof fn lemma_lookup_command_skip(cmds: Seq<AuthCommandV>, key: Seq<char>, k: int)
    requires
        0 <= k <= cmds.len(),
        forall|j: int| 0 <= j < k ==> (#[trigger] cmds[j]).profile != key,
    ensures
        lookup_command(cmds, key) == lookup_command(cmds.skip(k), key),
    decreases k,
{
    if k == 0 {
        assert(cmds.skip(0) =~= cmds);
    } else {
        let rest = cmds.drop_first();
        assert(forall|i: int| 0 <= i < rest.len() ==> (#[trigger] rest[i]) == cmds[i + 1]);
        lemma_lookup_command_skip(rest, key, k - 1);
        assert(rest.skip(k - 1) =~= cmds.skip(k));
    }
}

/// The first template under `key`, scanning from the front.
fn lookup_script(cmds: &Vec<AuthCommand>, key: &str) -> (r: Option<String>)
    ensures
        match r {
            Option::Some(s) => lookup_command(
                cmds@.map_values(|c: AuthCommand| c@),
                key@,
            ) == Option::Some(s@),
            Option::None => lookup_command(
                cmds@.map_values(|c: AuthCommand| c@),
                key@,
            ) is None,
        },
{
    let ghost cv = cmds@.map_values(|c: AuthCommand| c@);
    let mut i: usize = 0;
    while i < cmds.len()
        invariant
            0 <= i <= cmds@.len(),
            cv == cmds@.map_values(|c: AuthCommand| c@),
            forall|j: int| 0 <= j < i ==> (#[trigger] cv[j]).profile != key@,
        decreases cmds@.len() - i,
    {
        proof {
            assert(cv[i as int] == cmds@[i as int]@);
        }
        if str_eq(cmds[i].profile.as_str(), key) {
            proof {
                lemma_lookup_command_skip(cv, key@, i as int);
                assert(cv.skip(i as int)[0] == cmds@[i as int]@);
            }
            return Option::Some(cmds[i].script.clone());
        }
        i += 1;
    }
    proof {
        lemma_lookup_command_skip(cv, key@, cv.len() as int);
        assert(cv.skip(cv.len() as int) =~= Seq::<AuthCommandV>::empty());
        assert(lookup_command(Seq::<AuthCommandV>::empty(), key@) is None);
    }
    Option::None
}

/// What the rendering of a template against the single binding `profile`
/// returns: the rendered text, or nothing when the template is invalid.
pub uninterp spec fn rendered_script(template: Seq<char>, profile: Seq<char>) -> Option<
    Seq<char>,
>;

#[verifier::external_type_specification]
#[verifier::external_body]
pub struct ExRenderError(handlebars::RenderError);

/// Relies on handlebars::Handlebars::render_template: rendering a template
/// string against one data binding is a pure function of the template text
/// and the bound value; it returns the rendered text, or an error exactly
/// when the template cannot be rendered.
#[verifier::external_body]
fn render_template_with_profile(template: &str, profile: &str) -> (r: Result<
    String,
    handlebars::RenderError,
>)
    ensures
        r is Ok <==> rendered_script(template@, profile@) is Some,
        r matches Ok(s) ==> Option::Some(s@) == rendered_script(template@, profile@),
{
    let mut data = serde_json::Map::new();
    data.insert(
        "profile".to_string(),
        serde_json::Value::String(profile.to_string()),
    );
    handlebars::Handlebars::new().render_template(template, &serde_json::Value::Object(data))
}

impl Configs {
    /// The template that applies to `profile`; fails with
    /// `NoAuthConfiguration` exactly when neither the profile nor the
    /// wildcard has an entry.
    pub fn resolve_auth_command(&self, profile: &str) -> (r: Result<String, CTXError>)
        ensures
            match r {
                Result::Ok(s) => resolve_command(self@, profile@) == Option::Some(s@),
                Result::Err(e) => {
                    &&& resolve_command(self@, profile@) is None
                    &&& (e matches CTXError::NoAuthConfiguration { profile: p } && p@
                        == profile@)
                },
            },
    {
        match lookup_script(&self.auth_commands, profile) {
            Option::Some(s) => Result::Ok(s),
            Option::None => match lookup_script(&self.auth_commands, "__default") {
                Option::Some(s) => Result::Ok(s),
                Option::None => Result::Err(
                    CTXError::NoAuthConfiguration { profile: String::from_str(profile) },
                ),
            },
        }
    }

    /// Resolves the template for `profile` and renders it with the profile
    /// name substituted for `{{profile}}`; an unrenderable template fails
    /// with `InvalidConfigurations`.
    pub fn build_auth_script(&self, profile: &str) -> (r: Result<String, CTXError>)
        ensures
            match resolve_command(self@, profile@) {
                Option::None => (r matches Err(e) && (e
                    matches CTXError::NoAuthConfiguration { profile: p } && p@
                    == profile@)),
                Option::Some(tpl) => match rendered_script(tpl, profile@) {
                    Option::Some(s) => (r matches Ok(out) && out@ == s),
                    Option::None => (r matches Err(e) && (e
                        matches CTXError::InvalidConfigurations { message } && message@
                        == "failed to render the auth script of profile "@ + profile@)),
                },
            },
    {
        let template = match self.resolve_auth_command(profile) {
            Result::Ok(t) => t,
            Result::Err(e) => {
                return Result::Err(e);
            },
        };
        match render_template_with_profile(template.as_str(), profile) {
            Result::Ok(s) => Result::Ok(s),
            Result::Err(_) => {
                let mut message = String::from_str(
                    "failed to render the auth script of profile ",
                );
                message.append(profile);
                Result::Err(CTXError::InvalidConfigurations { message })
            },
        }
    }
}

impl Default for Configs {
    /// The configuration a fresh installation starts from: one wildcard
    /// entry that explains itself and runs `aws configure` for the chosen
    /// profile.
    fn default() -> (r: Self)
        ensures
            r@.len() == 1,
            r@[0].profile == "__default"@,
            r@[0].script
                == "echo \"This is default configuration for auth commands.\"\necho \"You can edit this configuration on ~/.awsctx/configs.yaml according to your needs.\"\naws configure --profile {{profile}}\n"@,
    {
        let mut auth_commands: Vec<AuthCommand> = Vec::new();
        auth_commands.push(
            AuthCommand {
                profile: String::from_str("__default"),
                script: String::from_str(
                    "echo \"This is default configuration for auth commands.\"\necho \"You can edit this configuration on ~/.awsctx/configs.yaml according to your needs.\"\naws configure --profile {{profile}}\n",
                ),
            },
        );
        proof {
            assert(auth_commands@.map_values(|c: AuthCommand| c@)[0]
                == auth_commands@[0]@);
        }
        Configs { auth_commands }
    }
}

} // verus!
