//! Where the sample corpora are: decided from two environment variables per
//! corpus, without reading the environment.

use vstd::prelude::*;
use crate::text::same;

verus! {

/// Names the public sample corpus, shared by most corpus tests.
pub const CORPUS_VAR: &'static str = "XAERO_CORPUS";

/// Names the private legacy archive. It is a separate variable because the two
/// data sets have different availability, not because they need different
/// rules.
pub const LEGACY_CORPUS_VAR: &'static str = "XAERO_LEGACY_CORPUS";

/// `r` is what becomes of a corpus variable `var` that holds `env_value`, when
/// `exists` is whether it points at a directory.
pub open spec fn resolved(
    var: Seq<char>,
    env_value: Option<String>,
    required: bool,
    exists: bool,
    r: Result<Option<String>, String>,
) -> bool {
    match env_value {
        Some(p) => if exists {
            r == Ok::<Option<String>, String>(Some(p))
        } else if required {
            r matches Err(e) && e@ == var + " points at a missing directory: "@ + p@
        } else {
            r == Ok::<Option<String>, String>(None)
        },
        None => if required {
            r matches Err(e) && e@ == var + "_REQUIRED=1 but "@ + var + " is unset"@
        } else {
            r == Ok::<Option<String>, String>(None)
        },
    }
}

/// Decides the corpus path from inputs. `required` forces a hard error (not a
/// skip) when data is missing. `var` names the environment variable the caller
/// reads, so that the message points at that variable.
pub fn resolve_corpus<F: Fn(&String) -> bool>(
    var: &str,
    env_value: Option<String>,
    required: bool,
    directory_exists: F,
) -> (r: Result<Option<String>, String>)
    requires
        env_value matches Some(p) ==> call_requires(directory_exists, (&p,)),
    ensures
        env_value is None ==> resolved(var@, env_value, required, false, r),
        env_value matches Some(p) ==> exists|found: bool| #[trigger]
            call_ensures(directory_exists, (&p,), found) && resolved(
                var@,
                env_value,
                required,
                found,
                r,
            ),
        required ==> r != Ok::<Option<String>, String>(None),
{
    if let Some(p) = env_value {
        if directory_exists(&p) {
            return Ok(Some(p));
        }
        if required {
            let mut message = var.to_owned();
            message.append(" points at a missing directory: ");
            message.append(p.as_str());
            return Err(message);
        }
        return Ok(None);
    }
    if required {
        let mut message = var.to_owned();
        message.append("_REQUIRED=1 but ");
        message.append(var);
        message.append(" is unset");
        return Err(message);
    }
    Ok(None)
}

/// The variable that makes the corpus named by `var` mandatory when it is "1".
pub fn required_var(var: &str) -> (r: String)
    ensures
        r@ == var@ + "_REQUIRED"@,
{
    let mut name = var.to_owned();
    name.append("_REQUIRED");
    name
}

/// The corpus is mandatory.
pub open spec fn is_required(required_value: Option<String>) -> bool {
    required_value matches Some(v) && v@ == "1"@
}

/// Decides one corpus variable from what it holds and what its `_REQUIRED`
/// companion holds. A caller that gets an error fails loudly, so that a
/// misconfigured corpus job fails instead of silently passing.
pub fn root_for<F: Fn(&String) -> bool>(
    var: &str,
    env_value: Option<String>,
    required_value: Option<String>,
    directory_exists: F,
) -> (r: Result<Option<String>, String>)
    requires
        env_value matches Some(p) ==> call_requires(directory_exists, (&p,)),
    ensures
        env_value is None ==> resolved(var@, env_value, is_required(required_value), false, r),
        env_value matches Some(p) ==> exists|found: bool| #[trigger]
            call_ensures(directory_exists, (&p,), found) && resolved(
                var@,
                env_value,
                is_required(required_value),
                found,
                r,
            ),
        is_required(required_value) ==> r != Ok::<Option<String>, String>(None),
{
    let required = match &required_value {
        Some(v) => same(v.as_str(), "1"),
        None => false,
    };
    resolve_corpus(var, env_value, required, directory_exists)
}

/// The public sample corpus.
pub fn corpus_root<F: Fn(&String) -> bool>(
    env_value: Option<String>,
    required_value: Option<String>,
    directory_exists: F,
) -> (r: Result<Option<String>, String>)
    requires
        env_value matches Some(p) ==> call_requires(directory_exists, (&p,)),
    ensures
        env_value is None ==> resolved(
            CORPUS_VAR@,
            env_value,
            is_required(required_value),
            false,
            r,
        ),
        env_value matches Some(p) ==> exists|found: bool| #[trigger]
            call_ensures(directory_exists, (&p,), found) && resolved(
                CORPUS_VAR@,
                env_value,
                is_required(required_value),
                found,
                r,
            ),
{
    root_for(CORPUS_VAR, env_value, required_value, directory_exists)
}

/// The private legacy archive.
pub fn legacy_corpus_root<F: Fn(&String) -> bool>(
    env_value: Option<String>,
    required_value: Option<String>,
    directory_exists: F,
) -> (r: Result<Option<String>, String>)
    requires
        env_value matches Some(p) ==> call_requires(directory_exists, (&p,)),
    ensures
        env_value is None ==> resolved(
            LEGACY_CORPUS_VAR@,
            env_value,
            is_required(required_value),
            false,
            r,
        ),
        env_value matches Some(p) ==> exists|found: bool| #[trigger]
            call_ensures(directory_exists, (&p,), found) && resolved(
                LEGACY_CORPUS_VAR@,
                env_value,
                is_required(required_value),
                found,
                r,
            ),
{
    root_for(LEGACY_CORPUS_VAR, env_value, required_value, directory_exists)
}

/// A corpus that is required is never passed over: it is there, or there is an
/// error.
pub proof fn law_required_is_never_skipped(
    var: Seq<char>,
    env_value: Option<String>,
    exists: bool,
    r: Result<Option<String>, String>,
)
    requires
        resolved(var, env_value, true, exists, r),
    ensures
        r is Err || (r matches Ok(found) && found == env_value && found is Some),
{
}

/// A corpus is asked for by `XAERO_CORPUS`, the legacy one by
/// `XAERO_LEGACY_CORPUS`, and only the value 1 makes one mandatory. A directory
/// that is there is used as it is given; what is missing is passed over, or is
/// an error that names the variable where it is mandatory.
pub proof fn law_corpus_is_found_or_accounted_for(
    var: Seq<char>,
    p: String,
    required: bool,
    r: Result<Option<String>, String>,
    value: String,
)
    ensures
        CORPUS_VAR@ == "XAERO_CORPUS"@,
        LEGACY_CORPUS_VAR@ == "XAERO_LEGACY_CORPUS"@,
        is_required(Some(value)) <==> value@ == "1"@,
        !is_required(None),
        resolved(var, Some(p), required, true, r) ==> r == Ok::<Option<String>, String>(Some(p)),
        resolved(var, Some(p), false, false, r) ==> r == Ok::<Option<String>, String>(None),
        resolved(var, None, false, false, r) ==> r == Ok::<Option<String>, String>(None),
        resolved(var, Some(p), true, false, r) ==> r is Err && r->Err_0@ == var
            + " points at a missing directory: "@ + p@,
        resolved(var, None, true, false, r) ==> r is Err && r->Err_0@ == var
            + "_REQUIRED=1 but "@ + var + " is unset"@,
{
}

} // verus!
