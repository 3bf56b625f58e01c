//! What an ANSI terminal UI keeps track of to redraw its partial line and
//! its prompts.  The caller moves the cursor and writes.
use vstd::prelude::*;

verus! {

/// How many columns of the current line were printed, and how many prompt
/// lines are drawn under the output.
pub struct TerminalState {
    pub rendered_prompt_lines: u16,
    pub printed_columns: u16,
}

/// How many lines `columns` printed columns take on a terminal `width`
/// wide, counting the line being written.
pub open spec fn lines_for(columns: u16, width: u16) -> int {
    if columns == 0 {
        0
    } else {
        columns / width + 1
    }
}

/// A partial line takes as many terminal lines as its columns need with
/// the cursor after them: nothing when empty; otherwise the fewest lines
/// whose columns hold every printed column and the cursor (so at least one).
pub proof fn lemma_lines_hold_the_columns(columns: u16, width: u16)
    requires
        width > 0,
    ensures
        columns == 0 ==> lines_for(columns, width) == 0,
        columns > 0 ==> lines_for(columns, width) >= 1,
        columns > 0 ==> (lines_for(columns, width) - 1) * width <= columns,
        columns > 0 ==> columns < lines_for(columns, width) * width,
{
    if columns > 0 {
        let q = columns / width;
        assert(q * width <= columns < (q + 1) * width) by (nonlinear_arith)
            requires
                width > 0,
                q == columns / width,
        ;
    }
}

/// How many lines `columns` printed columns take, computed (wide enough
/// for every column count).
pub fn lines_for_columns(columns: u16, width: u16) -> (r: u32)
    requires
        width > 0,
    ensures
        r == lines_for(columns, width),
{
    if columns == 0 {
        0
    } else {
        (columns / width) as u32 + 1
    }
}

impl TerminalState {
    pub fn new() -> (r: TerminalState)
        ensures
            r.rendered_prompt_lines == 0,
            r.printed_columns == 0,
    {
        TerminalState { rendered_prompt_lines: 0, printed_columns: 0 }
    }

    /// Forgets the partial line and the prompts; gives how many lines up to
    /// move before clearing down (0: nothing to clear).
    pub fn clear_partial_line(&mut self, width: u16) -> (lines: u16)
        requires
            width > 0,
            lines_for(old(self).printed_columns, width) + old(self).rendered_prompt_lines <= u16::MAX,
        ensures
            lines == lines_for(old(self).printed_columns, width) + old(self).rendered_prompt_lines,
            final(self).printed_columns == 0,
            final(self).rendered_prompt_lines == 0,
    {
        let columns = self.printed_columns;
        self.printed_columns = 0;
        let printed_lines: u16 = if columns == 0 {
            0
        } else {
            columns / width + 1
        };
        let extra = self.rendered_prompt_lines;
        self.rendered_prompt_lines = 0;
        printed_lines + extra
    }

    /// A new line starts: the prompts under the output must go; gives how
    /// many lines up to move before clearing down, if any.
    pub fn new_line(&mut self) -> (r: Option<u16>)
        ensures
            final(self).printed_columns == 0,
            final(self).rendered_prompt_lines == 0,
            r == if old(self).rendered_prompt_lines > 0 {
                Some(old(self).rendered_prompt_lines)
            } else {
                None
            },
    {
        self.printed_columns = 0;
        let last = self.rendered_prompt_lines;
        if last > 0 {
            self.rendered_prompt_lines = 0;
            Some(last)
        } else {
            None
        }
    }

    /// Text of `visible` columns was printed.
    pub fn text(&mut self, visible: u16)
        requires
            old(self).printed_columns + visible <= u16::MAX,
        ensures
            final(self).printed_columns == old(self).printed_columns + visible,
            final(self).rendered_prompt_lines == old(self).rendered_prompt_lines,
    {
        self.printed_columns = self.printed_columns + visible;
    }

    /// The line is done: when there are prompts, says whether to go to a new
    /// line before drawing them (a partial line was printed), and records
    /// how many prompt lines are drawn.
    pub fn finish_line(&mut self, prompt_count: u16) -> (r: bool)
        ensures
            r == (prompt_count > 0 && old(self).printed_columns > 0),
            final(self).printed_columns == old(self).printed_columns,
            final(self).rendered_prompt_lines == if prompt_count > 0 {
                prompt_count
            } else {
                old(self).rendered_prompt_lines
            },
    {
        if prompt_count > 0 {
            self.rendered_prompt_lines = prompt_count;
            self.printed_columns > 0
        } else {
            false
        }
    }
}

} // verus!
