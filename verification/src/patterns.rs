//! The directive keywords that the parser recognises.

use vstd::prelude::*;

verus! {

/// The strings of a pattern set, as character sequences.
pub struct PatternStrings {
    pub prefix: Seq<char>,
    pub args_inline: Seq<char>,
    pub args_open: Seq<char>,
    pub args_close: Seq<char>,
    pub stdout_inline: Seq<char>,
    pub stdout_open: Seq<char>,
    pub stdout_close: Seq<char>,
    pub stderr_inline: Seq<char>,
    pub stderr_open: Seq<char>,
    pub stderr_close: Seq<char>,
    pub exit: Seq<char>,
}

/// The comment prefix and the directive keywords of a test-file syntax.
pub trait PatternSet: Send + Sync {
    /// The strings that the methods below return.
    spec fn strings(&self) -> PatternStrings;

    fn prefix(&self) -> (r: &str)
        ensures
            r@ == self.strings().prefix,
    ;

    fn args_inline(&self) -> (r: &str)
        ensures
            r@ == self.strings().args_inline,
    ;

    fn args_open(&self) -> (r: &str)
        ensures
            r@ == self.strings().args_open,
    ;

    fn args_close(&self) -> (r: &str)
        ensures
            r@ == self.strings().args_close,
    ;

    fn stdout_inline(&self) -> (r: &str)
        ensures
            r@ == self.strings().stdout_inline,
    ;

    fn stdout_open(&self) -> (r: &str)
        ensures
            r@ == self.strings().stdout_open,
    ;

    fn stdout_close(&self) -> (r: &str)
        ensures
            r@ == self.strings().stdout_close,
    ;

    fn stderr_inline(&self) -> (r: &str)
        ensures
            r@ == self.strings().stderr_inline,
    ;

    fn stderr_open(&self) -> (r: &str)
        ensures
            r@ == self.strings().stderr_open,
    ;

    fn stderr_close(&self) -> (r: &str)
        ensures
            r@ == self.strings().stderr_close,
    ;

    fn exit(&self) -> (r: &str)
        ensures
            r@ == self.strings().exit,
    ;
}

/// The standard keywords (`out:`, `:out`, `err:`, `:err`, `args:`, `:args`,
/// `exit:`) behind a configurable comment prefix.
pub struct DefaultPatterns {
    pub prefix: String,
}

impl DefaultPatterns {
    pub fn new(prefix: &str) -> (r: Self)
        ensures
            r.prefix@ == prefix@,
    {
        DefaultPatterns { prefix: String::from_str(prefix) }
    }
}

/// The strings of the default pattern set with the comment prefix `prefix`.
pub open spec fn default_strings(prefix: Seq<char>) -> PatternStrings {
    PatternStrings {
        prefix,
        args_inline: "args:"@,
        args_open: "args:"@,
        args_close: ":args"@,
        stdout_inline: "out:"@,
        stdout_open: "out:"@,
        stdout_close: ":out"@,
        stderr_inline: "err:"@,
        stderr_open: "err:"@,
        stderr_close: ":err"@,
        exit: "exit:"@,
    }
}

impl PatternSet for DefaultPatterns {
    open spec fn strings(&self) -> PatternStrings {
        default_strings(self.prefix@)
    }

    fn prefix(&self) -> (r: &str) {
        self.prefix.as_str()
    }

    fn args_inline(&self) -> (r: &str) {
        "args:"
    }

    fn args_open(&self) -> (r: &str) {
        "args:"
    }

    fn args_close(&self) -> (r: &str) {
        ":args"
    }

    fn stdout_inline(&self) -> (r: &str) {
        "out:"
    }

    fn stdout_open(&self) -> (r: &str) {
        "out:"
    }

    fn stdout_close(&self) -> (r: &str) {
        ":out"
    }

    fn stderr_inline(&self) -> (r: &str) {
        "err:"
    }

    fn stderr_open(&self) -> (r: &str) {
        "err:"
    }

    fn stderr_close(&self) -> (r: &str) {
        ":err"
    }

    fn exit(&self) -> (r: &str) {
        "exit:"
    }
}

} // verus!
