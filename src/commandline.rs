//! The output formats a command can be asked for.

use vstd::prelude::*;

verus! {

/// How a command prints its result.
#[derive(Clone, Copy, Debug, PartialEq, Eq, Structural)]
pub enum CommandlineOutputKind {
    Regular,
    Json,
    Plain,
    Debug,
}

/// The output format chosen by the flags: `json` wins over `plain`, which
/// wins over `debug`; with none set the output is regular.
pub open spec fn output_kind_spec(json: bool, plain: bool, debug: bool) -> CommandlineOutputKind {
    if json {
        CommandlineOutputKind::Json
    } else if plain {
        CommandlineOutputKind::Plain
    } else if debug {
        CommandlineOutputKind::Debug
    } else {
        CommandlineOutputKind::Regular
    }
}

/// The output format chosen by the flags.
pub fn output_kind_of(json: bool, plain: bool, debug: bool) -> (r: CommandlineOutputKind)
    ensures
        r == output_kind_spec(json, plain, debug),
{
    if json {
        CommandlineOutputKind::Json
    } else if plain {
        CommandlineOutputKind::Plain
    } else if debug {
        CommandlineOutputKind::Debug
    } else {
        CommandlineOutputKind::Regular
    }
}

/// A set of output flags.
pub trait CommandlineFlags {
    /// Whether JSON output is asked for.
    spec fn json_set(&self) -> bool;

    /// Whether plain output is asked for.
    spec fn plain_set(&self) -> bool;

    /// Whether debug output is asked for.
    spec fn debug_set(&self) -> bool;

    fn json_flag(&self) -> (r: bool)
        ensures
            r == self.json_set(),
    ;

    fn plain_flag(&self) -> (r: bool)
        ensures
            r == self.plain_set(),
    ;

    fn debug_flag(&self) -> (r: bool)
        ensures
            r == self.debug_set(),
    ;

    /// The output format the flags choose.
    fn output_kind(&self) -> (r: CommandlineOutputKind)
        ensures
            r == output_kind_spec(self.json_set(), self.plain_set(), self.debug_set()),
    {
        output_kind_of(self.json_flag(), self.plain_flag(), self.debug_flag())
    }
}

/// The output flags that every command accepts.
#[derive(Clone, Copy, Debug, PartialEq, Eq, Structural)]
pub struct GlobalArguments {
    pub json_flag: bool,
    pub plain_flag: bool,
    pub debug_flag: bool,
}

impl CommandlineFlags for GlobalArguments {
    open spec fn json_set(&self) -> bool {
        self.json_flag
    }

    open spec fn plain_set(&self) -> bool {
        self.plain_flag
    }

    open spec fn debug_set(&self) -> bool {
        self.debug_flag
    }

    fn json_flag(&self) -> (r: bool) {
        self.json_flag
    }

    fn plain_flag(&self) -> (r: bool) {
        self.plain_flag
    }

    fn debug_flag(&self) -> (r: bool) {
        self.debug_flag
    }
}

impl GlobalArguments {
    /// The output format these flags choose.
    pub fn selected_output(&self) -> (r: CommandlineOutputKind)
        ensures
            r == output_kind_spec(self.json_flag, self.plain_flag, self.debug_flag),
    {
        output_kind_of(self.json_flag, self.plain_flag, self.debug_flag)
    }
}

} // verus!
