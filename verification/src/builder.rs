//! Record formatting configuration: chooses between the indented text
//! rendering and the JSON line rendering of a record, and whether the text
//! path styles its keys.

use vstd::prelude::*;
use vstd::string::StringExecFns;

use crate::flatten::Field;
use crate::json::{json_format_record, record_json_line};
use crate::text::{fields_text, Formatter};
use crate::value::Level;

verus! {

/// Chooses how records are formatted.
pub struct Builder {
    /// Whether records are formatted as JSON lines rather than text.
    pub format_json: bool,
    /// Whether the text path writes its keys in the emphasis style.
    pub styled: bool,
}

impl Builder {
    /// A builder that formats records as unstyled text.
    pub fn new() -> (r: Builder)
        ensures
            !r.format_json,
            !r.styled,
    {
        Builder { format_json: false, styled: false }
    }

    /// Format records as JSON lines.
    pub fn json_format(&mut self)
        ensures
            final(self).format_json,
            final(self).styled == old(self).styled,
    {
        self.format_json = true;
    }

    /// Formats one record with the chosen format. On the JSON path the
    /// pairs are flattened and one object line comes back; on the text
    /// path the message is followed by the indented key-value block. Both
    /// renderings are functions of the arguments alone.
    pub fn format_record(
        &self,
        timestamp: String,
        level: Level,
        msg: String,
        pairs: Vec<Field>,
    ) -> (r: String)
        ensures
            self.format_json ==> r@ == record_json_line(timestamp@, level, msg@, pairs@),
            !self.format_json ==> r@ == msg@ + seq!['\n'] + fields_text(pairs@, 0, self.styled),
    {
        if self.format_json {
            json_format_record(timestamp, level, msg, pairs)
        } else {
            let mut f = Formatter::new(self.styled);
            f.out.append(msg.as_str());
            f.write_key_values(&pairs);
            f.out
        }
    }
}

} // verus!
