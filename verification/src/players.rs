//! The player/AI roster for a new game and the civilization each slot
//! plays.
use vstd::prelude::*;

verus! {

/// Slot 0 is always the local human player, so this caps the AI slots:
/// the roster tops out at `MAX_AI_SLOTS + 1`.
pub const MAX_AI_SLOTS: usize = 7;

/// A playable civilization: its name and `[r, g, b]` swatch color.
#[derive(Clone, Debug)]
pub struct CivilizationDef {
    pub name: String,
    pub color: [u8; 3],
}

/// The loaded civilization roster.
#[derive(Clone, Debug)]
pub struct Civilizations(pub Vec<CivilizationDef>);

impl Default for Civilizations {
    fn default() -> (r: Self)
        ensures
            r.0@.len() == 0,
    {
        Civilizations(Vec::new())
    }
}

/// The roster used when the civilization file is missing or unreadable: a
/// handful of generic civilizations rather than an empty roster.
pub fn fallback_civilizations() -> (r: Vec<CivilizationDef>)
    ensures
        r@.len() == 4,
        r@[0].name@ == "Ardenmoor"@ && r@[0].color@ == seq![90u8, 150u8, 60u8],
        r@[1].name@ == "Kaelthar"@ && r@[1].color@ == seq![190u8, 90u8, 70u8],
        r@[2].name@ == "Suncrest"@ && r@[2].color@ == seq![210u8, 170u8, 60u8],
        r@[3].name@ == "Frosthold"@ && r@[3].color@ == seq![140u8, 180u8, 210u8],
{
    broadcast use vstd::string::to_string_from_display_ensures_for_str;

    let mut r: Vec<CivilizationDef> = Vec::new();
    let c0: [u8; 3] = [90, 150, 60];
    let c1: [u8; 3] = [190, 90, 70];
    let c2: [u8; 3] = [210, 170, 60];
    let c3: [u8; 3] = [140, 180, 210];
    assert(c0@ =~= seq![90u8, 150u8, 60u8]);
    assert(c1@ =~= seq![190u8, 90u8, 70u8]);
    assert(c2@ =~= seq![210u8, 170u8, 60u8]);
    assert(c3@ =~= seq![140u8, 180u8, 210u8]);
    r.push(CivilizationDef { name: "Ardenmoor".to_string(), color: c0 });
    r.push(CivilizationDef { name: "Kaelthar".to_string(), color: c1 });
    r.push(CivilizationDef { name: "Suncrest".to_string(), color: c2 });
    r.push(CivilizationDef { name: "Frosthold".to_string(), color: c3 });
    r
}

/// A slot's civilization pick: random, or an index into the roster.
#[derive(Clone, Copy, Debug, PartialEq, Eq, Structural)]
pub enum Nation {
    Random,
    Fixed(usize),
}

impl Nation {
    /// The civilization after `self` in the cycle Random, first, ..., last,
    /// Random, over a roster of `len` civilizations.
    pub open spec fn spec_next(self, len: int) -> Nation {
        match self {
            Nation::Random => if len > 0 {
                Nation::Fixed(0)
            } else {
                Nation::Random
            },
            Nation::Fixed(i) => if i + 1 < len {
                Nation::Fixed((i + 1) as usize)
            } else {
                Nation::Random
            },
        }
    }

    /// The civilization before `self` in the same cycle.
    pub open spec fn spec_prev(self, len: int) -> Nation {
        match self {
            Nation::Random => if len > 0 {
                Nation::Fixed((len - 1) as usize)
            } else {
                Nation::Random
            },
            Nation::Fixed(i) => if i == 0 {
                Nation::Random
            } else {
                Nation::Fixed((i - 1) as usize)
            },
        }
    }

    pub fn label(self, civs: &Civilizations) -> (r: String)
        ensures
            r@ == match self {
                Nation::Fixed(i) => if i < civs.0@.len() {
                    civs.0@[i as int].name@
                } else {
                    "Random"@
                },
                Nation::Random => "Random"@,
            },
    {
        broadcast use vstd::string::to_string_from_display_ensures_for_str;

        match self {
            Nation::Random => "Random".to_string(),
            Nation::Fixed(i) => {
                if i < civs.0.len() {
                    civs.0[i].name.clone()
                } else {
                    "Random".to_string()
                }
            },
        }
    }

    /// The swatch color for this pick, or `None` for Random (no fixed color
    /// to show yet) or an index past the roster.
    pub fn color(self, civs: &Civilizations) -> (r: Option<[u8; 3]>)
        ensures
            r == match self {
                Nation::Fixed(i) => if i < civs.0@.len() {
                    Some(civs.0@[i as int].color)
                } else {
                    None
                },
                Nation::Random => None,
            },
    {
        match self {
            Nation::Random => None,
            Nation::Fixed(i) => {
                if i < civs.0.len() {
                    Some(civs.0[i].color)
                } else {
                    None
                }
            },
        }
    }

    /// Cycles Random -> first civ -> ... -> last civ -> Random.
    pub fn next(self, civs: &Civilizations) -> (r: Nation)
        ensures
            r == self.spec_next(civs.0@.len() as int),
    {
        let len = civs.0.len();
        match self {
            Nation::Random => {
                if len > 0 {
                    Nation::Fixed(0)
                } else {
                    Nation::Random
                }
            },
            Nation::Fixed(i) => {
                if i < usize::MAX && i + 1 < len {
                    Nation::Fixed(i + 1)
                } else {
                    Nation::Random
                }
            },
        }
    }

    pub fn prev(self, civs: &Civilizations) -> (r: Nation)
        ensures
            r == self.spec_prev(civs.0@.len() as int),
    {
        match self {
            Nation::Random => {
                if civs.0.len() > 0 {
                    Nation::Fixed(civs.0.len() - 1)
                } else {
                    Nation::Random
                }
            },
            Nation::Fixed(i) => {
                if i == 0 {
                    Nation::Random
                } else {
                    Nation::Fixed(i - 1)
                }
            },
        }
    }
}

/// Stepping forward then back returns to the same pick, for any pick that
/// names a civilization of the roster (or Random).
pub proof fn lemma_next_prev_roundtrip(n: Nation, len: int)
    requires
        0 <= len <= usize::MAX,
        n matches Nation::Fixed(i) ==> i < len,
    ensures
        n.spec_next(len).spec_prev(len) == n,
        n.spec_prev(len).spec_next(len) == n,
{
}

#[derive(Clone, Copy, Debug, PartialEq, Eq, Structural)]
pub struct PlayerSlot {
    pub nation: Nation,
}

/// The player/AI roster for the next game. Slot 0 is always the local
/// human player, never removable; every slot after it is an AI opponent.
pub struct PlayersSettings {
    pub slots: Vec<PlayerSlot>,
}

impl PlayersSettings {
    /// The roster always holds the human slot and at most `MAX_AI_SLOTS`
    /// AI slots.
    pub open spec fn wf(&self) -> bool {
        1 <= self.slots@.len() <= MAX_AI_SLOTS + 1
    }

    /// Just the human player, on a random civilization.
    pub fn new() -> (r: Self)
        ensures
            r.wf(),
            r.slots@ == seq![PlayerSlot { nation: Nation::Random }],
    {
        let mut slots: Vec<PlayerSlot> = Vec::new();
        slots.push(PlayerSlot { nation: Nation::Random });
        PlayersSettings { slots }
    }

    /// "+ Add AI": appends a random-civilization AI slot unless the roster
    /// is full. Returns whether anything changed.
    pub fn add_ai(&mut self) -> (changed: bool)
        ensures
            changed == (old(self).slots@.len() < MAX_AI_SLOTS + 1),
            changed ==> final(self).slots@ == old(self).slots@.push(
                PlayerSlot { nation: Nation::Random },
            ),
            !changed ==> final(self).slots@ == old(self).slots@,
    {
        if self.slots.len() < MAX_AI_SLOTS + 1 {
            self.slots.push(PlayerSlot { nation: Nation::Random });
            true
        } else {
            false
        }
    }

    /// "Remove" on slot `i`: drops it unless it is the human slot or does
    /// not exist. Returns whether anything changed.
    pub fn remove_slot(&mut self, i: usize) -> (changed: bool)
        ensures
            changed == (i != 0 && i < old(self).slots@.len()),
            changed ==> final(self).slots@ == old(self).slots@.remove(i as int),
            !changed ==> final(self).slots@ == old(self).slots@,
    {
        if i != 0 && i < self.slots.len() {
            self.slots.remove(i);
            true
        } else {
            false
        }
    }

    /// The nation stepper on slot `i` (`forward` for "+", otherwise "-").
    /// Returns whether the slot exists.
    pub fn step_nation(&mut self, i: usize, forward: bool, civs: &Civilizations) -> (changed: bool)
        ensures
            changed == (i < old(self).slots@.len()),
            changed ==> final(self).slots@ == old(self).slots@.update(
                i as int,
                PlayerSlot {
                    nation: if forward {
                        old(self).slots@[i as int].nation.spec_next(civs.0@.len() as int)
                    } else {
                        old(self).slots@[i as int].nation.spec_prev(civs.0@.len() as int)
                    },
                },
            ),
            !changed ==> final(self).slots@ == old(self).slots@,
    {
        if i < self.slots.len() {
            let current = self.slots[i].nation;
            let nation = if forward {
                current.next(civs)
            } else {
                current.prev(civs)
            };
            self.slots.set(i, PlayerSlot { nation });
            true
        } else {
            false
        }
    }
}

/// Every roster edit keeps the human slot first and the roster within its
/// cap.
pub proof fn lemma_roster_edits_keep_wf(slots: Seq<PlayerSlot>, i: int, nation: Nation)
    requires
        1 <= slots.len() <= MAX_AI_SLOTS + 1,
    ensures
        slots.len() < MAX_AI_SLOTS + 1 ==> 1 <= slots.push(PlayerSlot { nation: Nation::Random }).len()
            <= MAX_AI_SLOTS + 1,
        i != 0 && 0 <= i < slots.len() ==> 1 <= slots.remove(i).len() <= MAX_AI_SLOTS + 1,
        i != 0 && 0 <= i < slots.len() ==> slots.remove(i)[0] == slots[0],
        0 <= i < slots.len() ==> slots.update(i, PlayerSlot { nation }).len() == slots.len(),
{
}

} // verus!
