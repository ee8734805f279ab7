//! The command-line arguments, and the rule that derives the output path
//! from the input path.
use vstd::prelude::*;
use crate::text::{push_char, string_of, to_chars};

verus! {

/// The arguments: the path of the source file.
pub struct JsonGenerator {
    pub input: String,
}

pub open spec fn input_suffix() -> Seq<char> {
    seq!['.', 'j', 'g']
}

pub open spec fn output_suffix() -> Seq<char> {
    seq!['.', 'j', 's', 'o', 'n']
}

pub open spec fn has_input_suffix(p: Seq<char>) -> bool {
    p.len() >= 3 && p.subrange(p.len() - 3, p.len() as int) == input_suffix()
}

/// `p` with its input suffix replaced by the output suffix.
pub open spec fn output_of(p: Seq<char>) -> Seq<char> {
    p.subrange(0, p.len() - 3) + output_suffix()
}

impl JsonGenerator {
    /// The path to write the document to, or `None` where the input path
    /// does not carry the source suffix.
    pub fn output_path(&self) -> (r: Option<String>)
        ensures
            match r {
                Some(o) => has_input_suffix(self.input@) && o@ == output_of(self.input@),
                None => !has_input_suffix(self.input@),
            },
    {
        let v = to_chars(self.input.as_str());
        let n = v.len();
        if n < 3 || v[n - 3] != '.' || v[n - 2] != 'j' || v[n - 1] != 'g' {
            proof {
                if n >= 3 && has_input_suffix(self.input@) {
                    let t = self.input@.subrange(n - 3, n as int);
                    assert(t[0] == '.' && t[1] == 'j' && t[2] == 'g');
                }
            }
            return None;
        }
        assert(v@.subrange(n - 3, n as int) =~= input_suffix());
        let mut o = string_of(&v, 0, n - 3);
        push_char(&mut o, '.');
        push_char(&mut o, 'j');
        push_char(&mut o, 's');
        push_char(&mut o, 'o');
        push_char(&mut o, 'n');
        assert(o@ =~= output_of(self.input@));
        Some(o)
    }
}

} // verus!
