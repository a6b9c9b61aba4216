//! Settings: what the user asks for through the environment or a dotenv file.
use vstd::prelude::*;
use vstd::string::*;
use vstd::utf8::*;

use crate::args::{comma_items, law_no_items, parse_sandbox_ro_bind};
use crate::environ::EnvMap;
use crate::text::{decode_lossy, lossy, text_views};

verus! {

/// Looks a setting up: in the dotenv environment first, and in that of the process where the
/// former lacks it. A setting that neither has is empty.
pub fn env_get(dotenv: &Option<EnvMap>, key: &str, process: Option<String>) -> (r: String)
    ensures
        r@ == setting(dotenv_view(*dotenv), key@, process_view(process)),
        *dotenv matches Some(map) ==> map@.contains_key(encode_utf8(key@)) ==> r@ == lossy(
            map@[encode_utf8(key@)],
        ),
        (*dotenv matches Some(map) ==> !map@.contains_key(encode_utf8(key@))) ==> r@
            == match process {
            Some(text) => text@,
            None => Seq::empty(),
        },
{
    if let Some(map) = dotenv {
        if let Some(value) = map.get(key.as_bytes()) {
            return decode_lossy(&value);
        }
    }
    match process {
        Some(text) => text,
        None => String::new(),
    }
}

pub open spec fn dotenv_view(dotenv: Option<EnvMap>) -> Map<Seq<u8>, Seq<u8>> {
    match dotenv {
        Some(map) => map@,
        None => Map::empty(),
    }
}

pub open spec fn process_view(process: Option<String>) -> Option<Seq<char>> {
    match process {
        Some(text) => Some(text@),
        None => None,
    }
}

/// The text of the setting `key`.
pub open spec fn setting(
    dotenv: Map<Seq<u8>, Seq<u8>>,
    key: Seq<char>,
    process: Option<Seq<char>>,
) -> Seq<char> {
    if dotenv.contains_key(encode_utf8(key)) {
        lossy(dotenv[encode_utf8(key)])
    } else {
        match process {
            Some(text) => text,
            None => Seq::empty(),
        }
    }
}

/// What the variables of the process say.
pub struct ProcessValues {
    pub sandbox_ro_bind: Option<Seq<char>>,
    pub bwrap_args: Option<Seq<char>>,
    pub verbose_upper: Option<Seq<char>>,
    pub verbose_lower: Option<Seq<char>>,
}

/// What settings say.
#[verifier::ext_equal]
pub struct SettingValues {
    pub ro_bind: Seq<Seq<char>>,
    pub bwrap_args: Seq<char>,
    pub process_bwrap_args: Seq<char>,
    pub verbose: bool,
}

/// The variables of the process that hold settings.
pub struct ProcessSettings {
    pub sandbox_ro_bind: Option<String>,
    pub bwrap_args: Option<String>,
    pub verbose_upper: Option<String>,
    pub verbose_lower: Option<String>,
}

/// What the user asks for.
pub struct Settings {
    /// Patterns of paths to bind for reading.
    pub ro_bind: Vec<String>,
    /// Further `bwrap` arguments.
    pub bwrap_args: String,
    /// Further `bwrap` arguments, of the process alone.
    pub process_bwrap_args: String,
    /// Whether to trace the call.
    pub verbose: bool,
}

impl View for ProcessSettings {
    type V = ProcessValues;

    open spec fn view(&self) -> ProcessValues {
        ProcessValues {
            sandbox_ro_bind: process_view(self.sandbox_ro_bind),
            bwrap_args: process_view(self.bwrap_args),
            verbose_upper: process_view(self.verbose_upper),
            verbose_lower: process_view(self.verbose_lower),
        }
    }
}

impl View for Settings {
    type V = SettingValues;

    open spec fn view(&self) -> SettingValues {
        SettingValues {
            ro_bind: text_views(self.ro_bind@),
            bwrap_args: self.bwrap_args@,
            process_bwrap_args: self.process_bwrap_args@,
            verbose: self.verbose,
        }
    }
}

/// Whether tracing is on: either spelling of the verbose setting turns it on, unless it is empty.
pub open spec fn tracing(dotenv: Map<Seq<u8>, Seq<u8>>, process: ProcessValues) -> bool {
    setting(dotenv, "VERBOSE"@, process.verbose_upper).len() > 0 || setting(
        dotenv,
        "verbose"@,
        process.verbose_lower,
    ).len() > 0
}

/// The settings that a dotenv environment and the variables of the process make.
pub open spec fn settings_of(
    dotenv: Map<Seq<u8>, Seq<u8>>,
    process: ProcessValues,
) -> SettingValues {
    SettingValues {
        ro_bind: comma_items(setting(dotenv, "SANDBOX_RO_BIND"@, process.sandbox_ro_bind)),
        bwrap_args: setting(dotenv, "BWRAP_ARGS"@, process.bwrap_args),
        process_bwrap_args: setting(Map::empty(), "BWRAP_ARGS"@, process.bwrap_args),
        verbose: tracing(dotenv, process),
    }
}

/// Reads the settings. Either spelling of the verbose setting turns tracing on, unless it is
/// empty.
pub fn read_settings(dotenv: &Option<EnvMap>, process: ProcessSettings) -> (r: Settings)
    ensures
        r@ == settings_of(dotenv_view(*dotenv), process@),
        *dotenv matches Some(map) ==> map@.contains_key(encode_utf8("SANDBOX_RO_BIND"@))
            ==> text_views(r.ro_bind@) == comma_items(
            lossy(map@[encode_utf8("SANDBOX_RO_BIND"@)]),
        ),
        (*dotenv matches Some(map) ==> !map@.contains_key(encode_utf8("SANDBOX_RO_BIND"@)))
            ==> text_views(r.ro_bind@) == match process.sandbox_ro_bind {
            Some(text) => comma_items(text@),
            None => Seq::empty(),
        },
        *dotenv matches Some(map) ==> map@.contains_key(encode_utf8("BWRAP_ARGS"@))
            ==> r.bwrap_args@ == lossy(map@[encode_utf8("BWRAP_ARGS"@)]),
        (*dotenv matches Some(map) ==> !map@.contains_key(encode_utf8("BWRAP_ARGS"@)))
            ==> r.bwrap_args@ == match process.bwrap_args {
            Some(text) => text@,
            None => Seq::empty(),
        },
        r.process_bwrap_args@ == match process.bwrap_args {
            Some(text) => text@,
            None => Seq::empty(),
        },
        r.verbose <==> setting(
            dotenv_view(*dotenv),
            "VERBOSE"@,
            process_view(process.verbose_upper),
        ).len() > 0 || setting(
            dotenv_view(*dotenv),
            "verbose"@,
            process_view(process.verbose_lower),
        ).len() > 0,
{
    proof {
        law_no_items();
    }
    let process_bwrap_args = match &process.bwrap_args {
        Some(text) => text.clone(),
        None => String::new(),
    };
    let ro_bind = env_get(dotenv, "SANDBOX_RO_BIND", process.sandbox_ro_bind);
    let bwrap_args = env_get(dotenv, "BWRAP_ARGS", process.bwrap_args);
    let upper = env_get(dotenv, "VERBOSE", process.verbose_upper);
    let lower = env_get(dotenv, "verbose", process.verbose_lower);
    Settings {
        ro_bind: parse_sandbox_ro_bind(&ro_bind),
        bwrap_args,
        process_bwrap_args,
        verbose: !upper.as_str().is_empty() || !lower.as_str().is_empty(),
    }
}

/// A setting of the dotenv file overrules that of the process.
pub proof fn law_dotenv_overrules(
    dotenv: Map<Seq<u8>, Seq<u8>>,
    key: Seq<char>,
    one: Option<Seq<char>>,
    other: Option<Seq<char>>,
)
    requires
        dotenv.contains_key(encode_utf8(key)),
    ensures
        setting(dotenv, key, one) == setting(dotenv, key, other),
{
}

/// The names of the verbose setting.
pub open spec fn verbose_names() -> Set<Seq<char>> {
    set!["VERBOSE"@, "verbose"@]
}

/// A dotenv environment without the verbose setting.
pub open spec fn without_verbose(dotenv: Map<Seq<u8>, Seq<u8>>) -> Map<Seq<u8>, Seq<u8>> {
    dotenv.remove(encode_utf8("VERBOSE"@)).remove(encode_utf8("verbose"@))
}

/// The verbose setting changes nothing but the tracing: where two environments agree but for it,
/// so do all other settings.
pub proof fn law_verbose_is_apart(
    one: Map<Seq<u8>, Seq<u8>>,
    one_process: ProcessValues,
    other: Map<Seq<u8>, Seq<u8>>,
    other_process: ProcessValues,
)
    requires
        without_verbose(one) == without_verbose(other),
        one_process.sandbox_ro_bind == other_process.sandbox_ro_bind,
        one_process.bwrap_args == other_process.bwrap_args,
    ensures
        settings_of(one, one_process).ro_bind == settings_of(other, other_process).ro_bind,
        settings_of(one, one_process).bwrap_args == settings_of(other, other_process).bwrap_args,
        settings_of(one, one_process).process_bwrap_args == settings_of(
            other,
            other_process,
        ).process_bwrap_args,
{
    lemma_not_verbose(one, "SANDBOX_RO_BIND"@, one_process.sandbox_ro_bind);
    lemma_not_verbose(other, "SANDBOX_RO_BIND"@, other_process.sandbox_ro_bind);
    lemma_not_verbose(one, "BWRAP_ARGS"@, one_process.bwrap_args);
    lemma_not_verbose(other, "BWRAP_ARGS"@, other_process.bwrap_args);
    reveal_strlit("SANDBOX_RO_BIND");
    reveal_strlit("BWRAP_ARGS");
    reveal_strlit("VERBOSE");
    reveal_strlit("verbose");
}

/// Another setting does not need the verbose one.
proof fn lemma_not_verbose(
    dotenv: Map<Seq<u8>, Seq<u8>>,
    key: Seq<char>,
    process: Option<Seq<char>>,
)
    ensures
        !verbose_names().contains(key) ==> setting(dotenv, key, process) == setting(
            without_verbose(dotenv),
            key,
            process,
        ),
{
    encode_utf8_decode_utf8(key);
    encode_utf8_decode_utf8("VERBOSE"@);
    encode_utf8_decode_utf8("verbose"@);
}

/// Where each setting comes from. The dotenv environment overrules the process wherever it has
/// the key, whatever the process says; the process counts only where it has not. The second list
/// of `bwrap` arguments is that of the process in any case.
pub proof fn law_settings_sources(dotenv: Map<Seq<u8>, Seq<u8>>, process: ProcessValues)
    ensures
        ({
            let read = settings_of(dotenv, process);
            let ro_bind = encode_utf8("SANDBOX_RO_BIND"@);
            let bwrap_args = encode_utf8("BWRAP_ARGS"@);
            &&& dotenv.contains_key(ro_bind) ==> read.ro_bind == comma_items(lossy(dotenv[ro_bind]))
            &&& !dotenv.contains_key(ro_bind) ==> read.ro_bind == match process.sandbox_ro_bind {
                Some(text) => comma_items(text),
                None => Seq::empty(),
            }
            &&& dotenv.contains_key(bwrap_args) ==> read.bwrap_args == lossy(dotenv[bwrap_args])
            &&& !dotenv.contains_key(bwrap_args) ==> read.bwrap_args == match process.bwrap_args {
                Some(text) => text,
                None => Seq::empty(),
            }
            &&& read.process_bwrap_args == match process.bwrap_args {
                Some(text) => text,
                None => Seq::empty(),
            }
        }),
{
    law_no_items();
}

/// Tracing is off exactly where both spellings of the verbose setting are empty or missing, in the
/// dotenv environment where that has the key and in the process otherwise.
pub proof fn law_when_tracing(dotenv: Map<Seq<u8>, Seq<u8>>, process: ProcessValues)
    ensures
        ({
            let upper = encode_utf8("VERBOSE"@);
            let lower = encode_utf8("verbose"@);
            let upper_off = if dotenv.contains_key(upper) {
                lossy(dotenv[upper]).len() == 0
            } else {
                process.verbose_upper is None || process.verbose_upper->0.len() == 0
            };
            let lower_off = if dotenv.contains_key(lower) {
                lossy(dotenv[lower]).len() == 0
            } else {
                process.verbose_lower is None || process.verbose_lower->0.len() == 0
            };
            settings_of(dotenv, process).verbose <==> !(upper_off && lower_off)
        }),
{
}

/// A setting is what the dotenv environment has under its key, as text; where that lacks the key,
/// it is what the process has, and where neither has one, it is empty.
pub proof fn law_setting(
    map: EnvMap,
    key: Seq<char>,
    text: String,
    process: Option<Seq<char>>,
)
    ensures
        map@.contains_key(encode_utf8(key)) ==> setting(dotenv_view(Some(map)), key, process)
            == lossy(map@[encode_utf8(key)]),
        !map@.contains_key(encode_utf8(key)) ==> setting(dotenv_view(Some(map)), key, process)
            == setting(dotenv_view(None), key, process),
        setting(dotenv_view(None), key, process_view(Some(text))) == text@,
        setting(dotenv_view(None), key, process_view(None)) == Seq::<char>::empty(),
{
}

} // verus!
