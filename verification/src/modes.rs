//! Resolution of the four command-line intents into one run mode and one
//! print style. The flags themselves come from the caller's argument
//! parser; only the resolution rule lives here.

use vstd::prelude::*;

verus! {

#[derive(Clone, Copy, PartialEq, Eq, Structural, Debug)]
pub enum RunMode {
    Print,
    Input,
}

#[derive(Clone, Copy, PartialEq, Eq, Structural, Debug)]
pub enum PrintStyle {
    Table,
    Plain,
    Raw,
}

/// The run mode: adding a weight wins over printing.
pub fn resolve_run_mode(add: bool) -> (r: RunMode)
    ensures
        r == (if add {
            RunMode::Input
        } else {
            RunMode::Print
        }),
{
    if add {
        RunMode::Input
    } else {
        RunMode::Print
    }
}

/// The print style: raw passthrough wins over plain, plain over the table.
pub fn resolve_print_style(raw: bool, plain: bool) -> (r: PrintStyle)
    ensures
        r == (if raw {
            PrintStyle::Raw
        } else if plain {
            PrintStyle::Plain
        } else {
            PrintStyle::Table
        }),
{
    if raw {
        PrintStyle::Raw
    } else if plain {
        PrintStyle::Plain
    } else {
        PrintStyle::Table
    }
}

/// How many entries a table listing shows: all of them under `list`, else
/// the default window.
pub fn entries_to_show(list: bool) -> (r: Option<usize>)
    ensures
        list ==> r is None,
        !list ==> r == Some(crate::weightlog::DEFAULT_DISPLAY_NO),
{
    if list {
        None
    } else {
        Some(crate::weightlog::DEFAULT_DISPLAY_NO)
    }
}

} // verus!
