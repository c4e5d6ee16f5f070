use vstd::prelude::*;

pub(crate) mod collectors;
pub(crate) mod emitter;
pub(crate) mod tokens;

use crate::formatter::emitter::join_upto;
use crate::formatter::emitter::spec_emit;
use crate::formatter::emitter::Emitter;
use crate::parser::spec_parse;
use crate::parser::KeyValueParser;
use crate::parser::ParseError;
use vstd::string::StringExecFns;

verus! {

/// Configuration options for the formatter.
#[derive(Debug, Eq, PartialEq, Copy, Clone, Structural)]
pub struct FormatterConfig {
    /// Should the formatter use tabs or spaces for indentation.
    pub use_tabs: bool,
    /// Number of spaces to use per indent level, ignored with tabs.
    pub indent_size: u32,
    /// Maximum number of consecutive empty lines to keep.
    pub max_empty_lines: u32,
}

impl Default for FormatterConfig {
    /// Four spaces per indent level, at most one kept empty line.
    fn default() -> (r: Self)
        ensures
            r.use_tabs == false,
            r.indent_size == 4,
            r.max_empty_lines == 1,
    {
        Self { use_tabs: false, indent_size: 4, max_empty_lines: 1 }
    }
}

/// What formatting a document yields: the formatted text, or the first
/// syntax failure.
pub open spec fn spec_format(s: Seq<char>, c: FormatterConfig) -> Result<Seq<char>, ParseError> {
    match spec_parse(s) {
        Ok(po) => Ok(spec_emit(po.toks, c)),
        Err(e) => Err(e),
    }
}

/// Reformat a document to its canonical layout: parse it to tokens,
/// then lay every token out again under `config`.
pub fn format_keyvalue(input: &str, config: FormatterConfig) -> (r: Result<String, ParseError>)
    requires
        input@.len() < u32::MAX,
    ensures
        match spec_format(input@, config) {
            Ok(t) => r matches Ok(out) && out@ == t,
            Err(e) => r matches Err(pe) && pe == e,
        },
{
    match KeyValueParser::parse_document(input) {
        Err(e) => Err(e),
        Ok((_, tokens)) => {
            let mut em = Emitter::new(config);
            em.emit(&tokens);
            let ghost lines = em.st().lines;
            let mut out = String::new();
            let mut i: usize = 0;
            while i < em.buffer.len()
                invariant
                    i <= em.buffer@.len(),
                    lines == em.st().lines,
                    lines.len() == em.buffer@.len(),
                    forall|k: int| 0 <= k < lines.len() ==> lines[k] == em.buffer@[k]@,
                    out@ == join_upto(lines, i as int),
                decreases em.buffer@.len() - i,
            {
                if i > 0 {
                    out.append("\n");
                    proof {
                        reveal_strlit("\n");
                        assert("\n"@ =~= seq!['\n']);
                    }
                }
                out.append(em.buffer[i].as_str());
                i = i + 1;
            }
            proof {
                assert(out@ == join_upto(lines, lines.len() as int));
            }
            Ok(out)
        },
    }
}

} // verus!
