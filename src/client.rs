//! What the mixer does in answer to each datagram.
use crate::proto::{encode_view, zeros, Command, CommandView};
use crate::text::{decimal, push_decimal};
use vstd::prelude::*;

verus! {

/// What the mixer must do after receiving one command.  Float-valued
/// fields (`amp`, `value`) hold IEEE-754 bit patterns.
#[derive(Debug, Clone, Copy, PartialEq, Eq)]
pub enum Action {
    /// Drop the command.
    Ignore,
    /// Send this datagram back to the sender.
    Reply { packet: [u8; 36] },
    /// Stop the mixer after the current block.
    Quit,
    /// Start a note on `voice`, lasting `duration_us` microseconds.
    Play { voice: usize, freq: u32, amp: u32, duration_us: u64 },
    /// Set articulation parameter `index` on voices `first..end`.
    Articulate { first: usize, end: usize, index: u32, value: u32 },
}

/// Type tag announced in a capabilities reply.
pub open spec fn caps_tag() -> Seq<u8> {
    seq![83u8, 89u8, 78u8, 70u8]
}

/// The capabilities reply of a mixer with `n` voices.
pub open spec fn caps_reply(n: nat) -> CommandView {
    CommandView::Caps { voices: n as u32, tp: caps_tag(), ident: zeros(24) }
}

/// Whether `a` is the action owed to command `c` by a mixer with `n` voices.
pub open spec fn planned(c: CommandView, n: nat, a: Action) -> bool {
    match c {
        CommandView::Ping { .. } => match a {
            Action::Reply { packet } => packet@ == encode_view(c),
            _ => false,
        },
        CommandView::Caps { .. } => match a {
            Action::Reply { packet } => packet@ == encode_view(caps_reply(n)),
            _ => false,
        },
        CommandView::Quit => a == Action::Quit,
        CommandView::Play { sec, usec, freq, amp, voice } => if voice < n {
            a == Action::Play {
                voice: voice as usize,
                freq,
                amp,
                duration_us: (sec * 1_000_000 + usec) as u64,
            }
        } else {
            a == Action::Ignore
        },
        CommandView::ArtParam { voice, index, value } => match voice {
            None => a == Action::Articulate { first: 0, end: n as usize, index, value },
            Some(v) => if v < n {
                a == Action::Articulate { first: v as usize, end: (v + 1) as usize, index, value }
            } else {
                a == Action::Ignore
            },
        },
        _ => a == Action::Ignore,
    }
}

/// Decides how a mixer with `voices` voices answers `cmd`: pings are echoed,
/// capabilities are announced, notes and articulations that name a voice
/// the mixer lacks are dropped, and the rest is ignored.
pub fn plan_command(cmd: &Command, voices: usize) -> (r: Action)
    requires
        voices <= u32::MAX,
    ensures
        planned(cmd@, voices as nat, r),
{
    match cmd {
        Command::Ping { .. } => Action::Reply { packet: cmd.encode() },
        Command::Caps { .. } => {
            let tp = [83u8, 89u8, 78u8, 70u8];
            let ident = [0u8; 24];
            assert(tp@ =~= caps_tag());
            assert(ident@ =~= zeros(24));
            let reply = Command::Caps { voices: voices as u32, tp, ident };
            Action::Reply { packet: reply.encode() }
        },
        Command::Quit => Action::Quit,
        Command::Play { sec, usec, freq, amp, voice } => {
            if (*voice as usize) < voices {
                Action::Play {
                    voice: *voice as usize,
                    freq: *freq,
                    amp: *amp,
                    duration_us: *sec as u64 * 1_000_000 + *usec as u64,
                }
            } else {
                Action::Ignore
            }
        },
        Command::ArtParam { voice, index, value } => match voice {
            None => Action::Articulate { first: 0, end: voices, index: *index, value: *value },
            Some(v) => {
                if (*v as usize) < voices {
                    Action::Articulate {
                        first: *v as usize,
                        end: *v as usize + 1,
                        index: *index,
                        value: *value,
                    }
                } else {
                    Action::Ignore
                }
            },
        },
        _ => Action::Ignore,
    }
}

/// Name of the per-voice variable that holds articulation parameter `index`.
pub open spec fn art_param_spec(index: nat) -> Seq<char> {
    seq!['a', 'r', 't', 'p'] + decimal(index)
}

/// Builds the variable name `artp<index>`.
pub fn art_param_name(index: u32) -> (r: String)
    ensures
        r@ == art_param_spec(index as nat),
{
    let mut s = String::new();
    crate::text::push_char(&mut s, 'a');
    crate::text::push_char(&mut s, 'r');
    crate::text::push_char(&mut s, 't');
    crate::text::push_char(&mut s, 'p');
    push_decimal(&mut s, index as u64);
    assert(s@ =~= art_param_spec(index as nat));
    s
}

} // verus!
