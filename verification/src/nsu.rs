use vstd::prelude::*;

use crate::errors::StribotError;
use crate::scan::{extract_exec, extract_spec, to_chars};
use crate::temp::Temp;

verus! {

/// The descriptive phrase that precedes the value on the university page.
pub open spec fn nsu_prefix() -> Seq<char> {
    "Температура около НГУ "@
}

/// The unit suffix that follows the value.
pub open spec fn nsu_suffix() -> Seq<char> {
    " C"@
}

/// What extraction from the university page's body yields: the first
/// occurrence of the phrase, a signed decimal and the ` C` unit suffix.
pub open spec fn nsu_temp_spec(s: Seq<char>) -> Result<Temp, StribotError> {
    extract_spec(s, nsu_prefix(), nsu_suffix())
}

/// Extract the current temperature from the university page's body: the
/// leftmost `Температура около НГУ <value> C` occurrence, with the value
/// normalized exactly.
pub fn parse_temperature(body: &str) -> (r: Result<Temp, StribotError>)
    ensures
        r == nsu_temp_spec(body@),
{
    let chars = to_chars(body);
    let prefix = to_chars("Температура около НГУ ");
    let suffix = to_chars(" C");
    extract_exec(&chars, &prefix, &suffix)
}

/// Parsing has no hidden state: any two results drawn from the same body by
/// this grammar are identical.
pub proof fn lemma_nsu_parse_idempotent(
    s: Seq<char>,
    r1: Result<Temp, StribotError>,
    r2: Result<Temp, StribotError>,
)
    requires
        r1 == nsu_temp_spec(s),
        r2 == nsu_temp_spec(s),
    ensures
        r1 == r2,
{
}

} // verus!
