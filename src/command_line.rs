use vstd::prelude::*;

verus! {

/// The game's command-line options, once parsed.
#[derive(Debug, Copy, Clone, PartialEq, Eq, Structural)]
pub struct Opt {
    debug: Option<bool>,
}

impl Opt {
    pub closed spec fn debug_view(&self) -> Option<bool> {
        self.debug
    }

    /// Options holding the parsed value of the debug flag, if it was given.
    pub fn new(debug: Option<bool>) -> (r: Self)
        ensures
            r.debug_view() == debug,
    {
        Opt { debug }
    }

    /// Debug mode is on only when the flag was given as `true`.
    pub fn is_debug(&self) -> (r: bool)
        ensures
            r == (self.debug_view() == Some(true)),
    {
        match &self.debug {
            Some(debug_opt) => *debug_opt,
            None => false,
        }
    }
}

/// The raw command-line arguments.
pub struct CommandLineArgs {
    pub args: Vec<String>,
}

impl CommandLineArgs {
    /// Whether one of the arguments is exactly `argument`.
    pub fn has_arg(&self, argument: String) -> (r: bool)
        ensures
            r == exists|i: int| 0 <= i < self.args.len() && (#[trigger] self.args@[i])@ == argument@,
    {
        let mut i: usize = 0;
        while i < self.args.len()
            invariant
                i <= self.args.len(),
                forall|j: int| 0 <= j < i ==> (#[trigger] self.args@[j])@ != argument@,
            decreases self.args.len() - i,
        {
            if self.args[i] == argument {
                return true;
            }
            i = i + 1;
        }
        false
    }
}

} // verus!
