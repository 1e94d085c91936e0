//! What the operator holds: the script being edited, the drone picked in
//! the list, and the RUN trigger.
use crate::script::{parse_script, program_of, program_view, Instruction};
use vstd::prelude::*;

verus! {

/// The script a new console starts with.
pub const DEFAULT_SCRIPT: &'static str = "command\ntakeoff\ndelay 5\nland";

/// The operator's side of the console.
pub struct Console {
    /// The script as it stands in the editor.
    pub code: String,
    /// Whether RUN was pressed and the script has not been taken yet.
    pub run: bool,
    /// Whether errors are passed over rather than stopping the program.
    pub pass_errors: bool,
    /// The position of the drone picked in the list.
    pub drone_idx: usize,
}

impl Default for Console {
    fn default() -> (c: Console)
        ensures
            c.code@ == DEFAULT_SCRIPT@,
            !c.run,
            !c.pass_errors,
            c.drone_idx == 0,
    {
        Console { code: DEFAULT_SCRIPT.to_owned(), run: false, pass_errors: false, drone_idx: 0 }
    }
}

impl Console {
    /// Picks the drone at `index`.
    pub fn select(&mut self, index: usize)
        ensures
            final(self).drone_idx == index,
            final(self).code == old(self).code,
            final(self).run == old(self).run,
            final(self).pass_errors == old(self).pass_errors,
    {
        self.drone_idx = index;
    }

    /// Records that RUN was pressed.
    pub fn press_run(&mut self)
        ensures
            final(self).run,
            final(self).code == old(self).code,
            final(self).pass_errors == old(self).pass_errors,
            final(self).drone_idx == old(self).drone_idx,
    {
        self.run = true;
    }

    /// Answers a pending RUN, once: the program of the script as it stands
    /// now. Later edits do not reach a program that was taken.
    pub fn take_run(&mut self) -> (r: Option<Vec<Instruction>>)
        ensures
            match r {
                Some(program) => old(self).run && program_view(program@) == program_of(
                    old(self).code@,
                ),
                None => !old(self).run,
            },
            !final(self).run,
            final(self).code == old(self).code,
            final(self).pass_errors == old(self).pass_errors,
            final(self).drone_idx == old(self).drone_idx,
    {
        if self.run {
            self.run = false;
            Some(parse_script(self.code.as_str()))
        } else {
            None
        }
    }
}

} // verus!
