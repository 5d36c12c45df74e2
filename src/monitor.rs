//! The decisions of the monitoring loop: what a key asks for, what a
//! command does to the run's state, and how one tick's text is counted.
use vstd::prelude::*;
use crate::battle::{BattleState, PhaseView, opt_view, transition};
use crate::normalize::{normalize_pokemon_names, normalized};
use crate::pause::{PauseManager, restart_spec, toggle_manual_spec};
use crate::pokemon::extracted_name;
use crate::table::{FrequencyTable, Row, record_row, sum_counts};

verus! {

/// A control command read from the keyboard.
#[derive(Clone, Copy, Debug, PartialEq, Eq, Structural)]
pub enum Command {
    TogglePause,
    Restart,
    ShowStatistics,
    Normalize,
    ShowHelp,
    Quit,
}

/// What the loop does after a command.
#[derive(Clone, Copy, Debug, PartialEq, Eq, Structural)]
pub enum KeyAction {
    Continue,
    ShowStatistics,
    ShowHelp,
    Quit,
}

pub open spec fn key_command(c: char) -> Option<Command> {
    if c == 'p' || c == 'P' {
        Some(Command::TogglePause)
    } else if c == 'r' || c == 'R' {
        Some(Command::Restart)
    } else if c == 's' || c == 'S' {
        Some(Command::ShowStatistics)
    } else if c == 'n' || c == 'N' {
        Some(Command::Normalize)
    } else if c == '?' {
        Some(Command::ShowHelp)
    } else if c == 'q' || c == 'Q' {
        Some(Command::Quit)
    } else {
        None
    }
}

/// The command bound to key `c`: P pause, R restart, S statistics,
/// N normalize, ? help, Q quit (letters in either case).
pub fn command_for_key(c: char) -> (r: Option<Command>)
    ensures
        r == key_command(c),
{
    if c == 'p' || c == 'P' {
        Some(Command::TogglePause)
    } else if c == 'r' || c == 'R' {
        Some(Command::Restart)
    } else if c == 's' || c == 'S' {
        Some(Command::ShowStatistics)
    } else if c == 'n' || c == 'N' {
        Some(Command::Normalize)
    } else if c == '?' {
        Some(Command::ShowHelp)
    } else if c == 'q' || c == 'Q' {
        Some(Command::Quit)
    } else {
        None
    }
}

/// Carries out `cmd` at time `now`. Pause toggles the manual pause; restart
/// clears the counts, returns the state machine to idle and starts pause
/// accounting afresh; normalize rewrites the table. Showing statistics or
/// help, and quitting, are left to the caller through the returned action.
pub fn handle_command(
    cmd: Command,
    pause_manager: &mut PauseManager,
    battle_state: &mut BattleState,
    text_counts: &mut FrequencyTable,
    now: u64,
) -> (r: KeyAction)
    requires
        now >= old(pause_manager)@.clock,
        old(text_counts).wf(),
    ensures
        final(text_counts).wf(),
        match cmd {
            Command::TogglePause => {
                &&& final(pause_manager)@ == toggle_manual_spec(old(pause_manager)@, now as nat)
                &&& final(battle_state)@ == old(battle_state)@
                &&& final(text_counts)@ == old(text_counts)@
                &&& r == KeyAction::Continue
            },
            Command::Restart => {
                &&& final(pause_manager)@ == restart_spec(now as nat)
                &&& final(battle_state)@ == PhaseView::Idle
                &&& final(text_counts)@ == Seq::<Row>::empty()
                &&& r == KeyAction::Continue
            },
            Command::Normalize => {
                &&& final(pause_manager)@ == old(pause_manager)@
                &&& final(battle_state)@ == old(battle_state)@
                &&& final(text_counts)@ == normalized(old(text_counts)@)
                &&& r == KeyAction::Continue
            },
            _ => {
                &&& final(pause_manager)@ == old(pause_manager)@
                &&& final(battle_state)@ == old(battle_state)@
                &&& final(text_counts)@ == old(text_counts)@
                &&& r == match cmd {
                    Command::ShowStatistics => KeyAction::ShowStatistics,
                    Command::ShowHelp => KeyAction::ShowHelp,
                    _ => KeyAction::Quit,
                }
            },
        },
{
    match cmd {
        Command::TogglePause => {
            pause_manager.toggle_manual_pause(now);
            KeyAction::Continue
        },
        Command::Restart => {
            text_counts.clear();
            battle_state.reset();
            pause_manager.restart(now);
            KeyAction::Continue
        },
        Command::Normalize => {
            let merged = normalize_pokemon_names(text_counts);
            *text_counts = merged;
            KeyAction::Continue
        },
        Command::ShowStatistics => KeyAction::ShowStatistics,
        Command::ShowHelp => KeyAction::ShowHelp,
        Command::Quit => KeyAction::Quit,
    }
}

/// Feeds one tick's recognized text to the state machine and counts the
/// encounter it confirms, if any; returns the counted name.
pub fn process_ocr_text(
    text: &str,
    battle_state: &mut BattleState,
    text_counts: &mut FrequencyTable,
    empty_threshold: u32,
) -> (r: Option<String>)
    requires
        old(text_counts).wf(),
        sum_counts(old(text_counts)@) < usize::MAX,
    ensures
        final(text_counts).wf(),
        ({
            let (next, counted) = transition(
                old(battle_state)@,
                extracted_name(text@),
                empty_threshold as nat,
            );
            &&& final(battle_state)@ == next
            &&& opt_view(r) == counted
            &&& final(text_counts)@ == match counted {
                Some(n) => record_row(old(text_counts)@, n),
                None => old(text_counts)@,
            }
        }),
{
    let counted = battle_state.update(text, empty_threshold);
    match counted {
        Some(name) => {
            let shown = name.clone();
            text_counts.record(name);
            Some(shown)
        },
        None => None,
    }
}

} // verus!
