//! The global player manager: which entities are players, and what each is
//! called.
use vstd::prelude::*;
use vstd::string::StringExecFns;

use crate::text::{decimal, decimal_string};

verus! {

/// A component marking a player.
#[derive(Clone, Copy, Debug, PartialEq, Eq, Structural)]
pub struct Player {
    /// The player's index.
    ///
    /// Zero-based, so "Player 1" has index 0.
    pub index: usize,
}

/// The global player manager: the player entities, in the order they were
/// spawned.
pub struct PlayerManager {
    players: Vec<u64>,
}

/// The name of the player with the given index: "Player 1" for index 0.
pub open spec fn player_name(index: nat) -> Seq<char> {
    "Player "@ + decimal(index + 1)
}

impl View for PlayerManager {
    type V = Seq<u64>;

    /// The player entities, in the order they were spawned.
    closed spec fn view(&self) -> Seq<u64> {
        self.players@
    }
}

impl Default for PlayerManager {
    /// A manager with no player.
    fn default() -> (m: PlayerManager)
        ensures
            m@ == Seq::<u64>::empty(),
    {
        PlayerManager { players: Vec::new() }
    }
}

impl PlayerManager {
    /// The player entities, in the order they were spawned.
    pub fn players(&self) -> (r: &Vec<u64>)
        ensures
            r@ == self@,
    {
        &self.players
    }

    /// Records entity `id` as the next player, and returns the name and the
    /// player component it is spawned with.
    pub fn spawn_player(&mut self, id: u64) -> (r: (String, Player))
        requires
            old(self)@.len() < u64::MAX,
        ensures
            final(self)@ == old(self)@.push(id),
            r.1.index == old(self)@.len(),
            r.0@ == player_name(old(self)@.len()),
    {
        let index = self.players.len();
        let mut name = String::from_str("Player ");
        let number = decimal_string(index as u64 + 1);
        name.append(number.as_str());
        self.players.push(id);
        (name, Player { index })
    }
}

} // verus!
