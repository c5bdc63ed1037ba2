//! What the keyboard decides: how often the curve is folded, whether the
//! angle's velocity is nudged, and when the show ends.

use vstd::prelude::*;

verus! {

/// A key that the controls answer to.
#[derive(Clone, Copy, PartialEq, Eq, Structural, Debug)]
pub enum Key {
    Up,
    Down,
    Left,
    Right,
    Q,
}

/// What a key press asks of the velocity at which the fold angle changes.
#[derive(Clone, Copy, PartialEq, Eq, Structural, Debug)]
pub enum Nudge {
    Steady,
    Slower,
    Faster,
}

/// The part of the state that the keys decide by themselves: the number of
/// folds, and whether the show is still running.
#[derive(Clone, Copy, PartialEq, Eq, Structural, Debug)]
pub struct Controls {
    pub folds: usize,
    pub running: bool,
}

/// The controls after `key` was pressed. `Up` adds a fold, `Down` takes one
/// away unless there is none, `Q` stops the show, and once it has stopped no
/// key does anything.
pub open spec fn after_press(controls: Controls, key: Key) -> Controls {
    if !controls.running {
        controls
    } else {
        match key {
            Key::Up => Controls { folds: (controls.folds + 1) as usize, running: true },
            Key::Down => Controls {
                folds: if controls.folds == 0 {
                    0
                } else {
                    (controls.folds - 1) as usize
                },
                running: true,
            },
            Key::Left | Key::Right => controls,
            Key::Q => Controls { folds: controls.folds, running: false },
        }
    }
}

/// What pressing `key` asks of the angle's velocity: `Left` slows it down,
/// `Right` speeds it up, and once the show has stopped no key does anything.
pub open spec fn nudge_of(controls: Controls, key: Key) -> Nudge {
    if !controls.running {
        Nudge::Steady
    } else {
        match key {
            Key::Left => Nudge::Slower,
            Key::Right => Nudge::Faster,
            _ => Nudge::Steady,
        }
    }
}

/// The controls after each key of `keys` was pressed in turn.
pub open spec fn after_keys(controls: Controls, keys: Seq<Key>) -> Controls
    decreases keys.len(),
{
    if keys.len() == 0 {
        controls
    } else {
        after_press(after_keys(controls, keys.drop_last()), keys.last())
    }
}

impl Controls {
    /// The controls at the start: six folds, running.
    pub fn new() -> (controls: Self)
        ensures
            controls == (Controls { folds: 6, running: true }),
    {
        Controls { folds: 6, running: true }
    }

    /// Presses one key, and says what it asks of the angle's velocity.
    pub fn press(&mut self, key: Key) -> (nudge: Nudge)
        requires
            old(self).running && key == Key::Up ==> old(self).folds < usize::MAX,
        ensures
            *final(self) == after_press(*old(self), key),
            nudge == nudge_of(*old(self), key),
    {
        if !self.running {
            return Nudge::Steady;
        }
        match key {
            Key::Up => {
                self.folds = self.folds + 1;
                Nudge::Steady
            },
            Key::Down => {
                self.folds = self.folds.saturating_sub(1);
                Nudge::Steady
            },
            Key::Left => Nudge::Slower,
            Key::Right => Nudge::Faster,
            Key::Q => {
                self.running = false;
                Nudge::Steady
            },
        }
    }
}

/// `Down` undoes `Up`: after the two the number of folds is what it was.
pub proof fn lemma_down_undoes_up(controls: Controls)
    requires
        controls.folds < usize::MAX,
    ensures
        after_press(after_press(controls, Key::Up), Key::Down) == controls,
{
}

/// However often `Down` is pressed, the number of folds stops at zero, and
/// from zero it stays there.
pub proof fn lemma_down_stops_at_zero(controls: Controls, presses: nat)
    requires
        controls.running,
    ensures
        after_keys(controls, Seq::new(presses, |i: int| Key::Down)).running,
        after_keys(controls, Seq::new(presses, |i: int| Key::Down)).folds == if presses
            >= controls.folds {
            0
        } else {
            controls.folds - presses
        },
    decreases presses,
{
    if presses > 0 {
        let keys = Seq::new(presses, |i: int| Key::Down);
        lemma_down_stops_at_zero(controls, (presses - 1) as nat);
        assert(keys.drop_last() =~= Seq::new((presses - 1) as nat, |i: int| Key::Down));
    }
}

/// Once the show has stopped, no key starts it again or changes the folds.
pub proof fn lemma_stopped_stays(controls: Controls, keys: Seq<Key>)
    requires
        !controls.running,
    ensures
        after_keys(controls, keys) == controls,
    decreases keys.len(),
{
    if keys.len() > 0 {
        lemma_stopped_stays(controls, keys.drop_last());
    }
}

} // verus!
