//! Styling of diagnostic text: wrapping a message in the colour tags
//! the output layer understands, or passing it through bare when
//! colour is off. Only the text is produced here; printing it is the
//! caller's business.

use vstd::prelude::*;
use vstd::string::StringExecFns;
use crate::text::{chars_to_string, push_str_chars};

verus! {

/// A message wrapped in a colour tag, or bare.
pub open spec fn wrapped(use_color: bool, tag: Seq<char>, text: Seq<char>) -> Seq<char> {
    if use_color {
        "["@ + tag + "]"@ + text + "[/]"@
    } else {
        text
    }
}

/// Styling of verbose diagnostic messages.
#[derive(Debug, Clone, Copy, PartialEq, Eq, Structural)]
pub struct VerboseStyle {
    /// Whether colour tags are emitted.
    pub use_color: bool,
}

impl VerboseStyle {
    /// A style that emits colour tags when `use_color` is set.
    pub fn new(use_color: bool) -> (r: VerboseStyle)
        ensures
            r.use_color == use_color,
    {
        VerboseStyle { use_color }
    }

    /// Wrap a message in the given tag when colour is on.
    pub fn wrap(&self, tag: &str, text: &str) -> (r: String)
        ensures
            r@ == wrapped(self.use_color, tag@, text@),
    {
        if self.use_color {
            let mut out: Vec<char> = Vec::new();
            push_str_chars(&mut out, "[");
            push_str_chars(&mut out, tag);
            push_str_chars(&mut out, "]");
            push_str_chars(&mut out, text);
            push_str_chars(&mut out, "[/]");
            chars_to_string(&out)
        } else {
            String::from_str(text)
        }
    }

    /// A section header.
    pub fn header(&self, text: &str) -> (r: String)
        ensures
            r@ == wrapped(self.use_color, "bold cyan"@, text@),
    {
        self.wrap("bold cyan", text)
    }

    /// A block heading.
    pub fn block(&self, text: &str) -> (r: String)
        ensures
            r@ == wrapped(self.use_color, "yellow"@, text@),
    {
        self.wrap("yellow", text)
    }

    /// A success message.
    pub fn success(&self, text: &str) -> (r: String)
        ensures
            r@ == wrapped(self.use_color, "bold green"@, text@),
    {
        self.wrap("bold green", text)
    }

    /// A dimmed aside.
    pub fn dim(&self, text: &str) -> (r: String)
        ensures
            r@ == wrapped(self.use_color, "dim"@, text@),
    {
        self.wrap("dim", text)
    }

    /// Emphasised text.
    pub fn bold(&self, text: &str) -> (r: String)
        ensures
            r@ == wrapped(self.use_color, "bold"@, text@),
    {
        self.wrap("bold", text)
    }

    /// A statistics label.
    pub fn stat_label(&self, text: &str) -> (r: String)
        ensures
            r@ == wrapped(self.use_color, "bold blue"@, text@),
    {
        self.wrap("bold blue", text)
    }

    /// The separator between summary sections.
    pub fn separator(&self) -> (r: String)
        ensures
            r@ == wrapped(self.use_color, "dim"@, "───"@),
    {
        self.wrap("dim", "───")
    }
}

} // verus!
