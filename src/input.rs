//! Key state gathered between two sends of a remote-input session. It is
//! an owned value that callers pass around, not a process-wide global.
use vstd::prelude::*;

verus! {

/// The keys a remote controller can send.
#[derive(Debug, Clone, Copy, PartialEq, Eq, Structural, Hash)]
pub enum KeyCode {
    Up,
    Right,
    Down,
    Left,
    W,
    A,
    S,
    D,
}

#[derive(Debug, Clone, Copy, PartialEq, Eq, Structural, Hash)]
pub enum ButtonState {
    Pressed,
    Released,
}

/// Number of distinct keys.
pub const KEY_COUNT: usize = 8;

impl KeyCode {
    pub open spec fn spec_index(self) -> nat {
        match self {
            KeyCode::Up => 0,
            KeyCode::Right => 1,
            KeyCode::Down => 2,
            KeyCode::Left => 3,
            KeyCode::W => 4,
            KeyCode::A => 5,
            KeyCode::S => 6,
            KeyCode::D => 7,
        }
    }

    /// The key's slot among all keys.
    pub fn index(&self) -> (r: usize)
        ensures
            r == self.spec_index(),
    {
        match self {
            KeyCode::Up => 0,
            KeyCode::Right => 1,
            KeyCode::Down => 2,
            KeyCode::Left => 3,
            KeyCode::W => 4,
            KeyCode::A => 5,
            KeyCode::S => 6,
            KeyCode::D => 7,
        }
    }

    /// The key in slot `i`.
    pub fn from_index(i: usize) -> (r: KeyCode)
        requires
            i < KEY_COUNT,
        ensures
            r.spec_index() == i,
    {
        if i == 0 {
            KeyCode::Up
        } else if i == 1 {
            KeyCode::Right
        } else if i == 2 {
            KeyCode::Down
        } else if i == 3 {
            KeyCode::Left
        } else if i == 4 {
            KeyCode::W
        } else if i == 5 {
            KeyCode::A
        } else if i == 6 {
            KeyCode::S
        } else {
            KeyCode::D
        }
    }
}

/// The arrow key a mobile front end numbers 0 (up) to 3 (left), clockwise.
pub fn key_code_from_i32(value: i32) -> (r: KeyCode)
    requires
        0 <= value <= 3,
    ensures
        r == (if value == 0 {
            KeyCode::Up
        } else if value == 1 {
            KeyCode::Right
        } else if value == 2 {
            KeyCode::Down
        } else {
            KeyCode::Left
        }),
{
    match value {
        0 => KeyCode::Up,
        1 => KeyCode::Right,
        2 => KeyCode::Down,
        _ => KeyCode::Left,
    }
}

/// The key a terminal front end reads as one of `w`, `a`, `s`, `d`.
pub fn key_code_from_char(c: char) -> (r: KeyCode)
    requires
        c == 'w' || c == 'a' || c == 's' || c == 'd',
    ensures
        r == (if c == 'w' {
            KeyCode::W
        } else if c == 'a' {
            KeyCode::A
        } else if c == 's' {
            KeyCode::S
        } else {
            KeyCode::D
        }),
{
    if c == 'w' {
        KeyCode::W
    } else if c == 'a' {
        KeyCode::A
    } else if c == 's' {
        KeyCode::S
    } else {
        KeyCode::D
    }
}

/// Key events not yet sent: at most one per key. A press and a release of
/// the same key cancel out.
pub struct InputState {
    slots: Vec<Option<ButtonState>>,
}

impl InputState {
    pub closed spec fn wf(&self) -> bool {
        self.slots@.len() == KEY_COUNT
    }

    /// The event waiting for `k`, if any.
    pub closed spec fn pending(&self, k: KeyCode) -> Option<ButtonState> {
        self.slots@[k.spec_index() as int]
    }

    /// No event waits.
    pub fn new() -> (r: InputState)
        ensures
            r.wf(),
            forall|k: KeyCode| r.pending(k) is None,
    {
        InputState { slots: vec![None; KEY_COUNT] }
    }

    /// A press: it cancels a waiting release, is recorded if nothing
    /// waits, and changes nothing if a press already waits.
    pub fn press(&mut self, k: KeyCode)
        requires
            old(self).wf(),
        ensures
            final(self).wf(),
            final(self).pending(k) == match old(self).pending(k) {
                Some(ButtonState::Released) => None,
                None => Some(ButtonState::Pressed),
                Some(ButtonState::Pressed) => Some(ButtonState::Pressed),
            },
            forall|j: KeyCode| j != k ==> final(self).pending(j) == old(self).pending(j),
    {
        let i = k.index();
        let next = match self.slots[i] {
            Some(ButtonState::Released) => None,
            None => Some(ButtonState::Pressed),
            Some(ButtonState::Pressed) => Some(ButtonState::Pressed),
        };
        self.slots.set(i, next);
        proof { lemma_index_injective(); }
    }

    /// A release: it cancels a waiting press, is recorded if nothing
    /// waits, and changes nothing if a release already waits.
    pub fn release(&mut self, k: KeyCode)
        requires
            old(self).wf(),
        ensures
            final(self).wf(),
            final(self).pending(k) == match old(self).pending(k) {
                Some(ButtonState::Pressed) => None,
                None => Some(ButtonState::Released),
                Some(ButtonState::Released) => Some(ButtonState::Released),
            },
            forall|j: KeyCode| j != k ==> final(self).pending(j) == old(self).pending(j),
    {
        let i = k.index();
        let next = match self.slots[i] {
            Some(ButtonState::Pressed) => None,
            None => Some(ButtonState::Released),
            Some(ButtonState::Released) => Some(ButtonState::Released),
        };
        self.slots.set(i, next);
        proof { lemma_index_injective(); }
    }

    /// Hands out the waiting events, one per key, and clears them.
    pub fn take_events(&mut self) -> (r: Vec<(KeyCode, ButtonState)>)
        requires
            old(self).wf(),
        ensures
            final(self).wf(),
            forall|k: KeyCode| final(self).pending(k) is None,
            forall|i: int| 0 <= i < r@.len() ==> old(self).pending((#[trigger] r@[i]).0) == Some(r@[i].1),
            forall|k: KeyCode| old(self).pending(k) is Some ==> exists|i: int| 0 <= i < r@.len() && (#[trigger] r@[i]).0 == k,
            forall|i: int, j: int| 0 <= i < j < r@.len() ==> r@[i].0 != r@[j].0,
    {
        let ghost before = *self;
        let mut r: Vec<(KeyCode, ButtonState)> = Vec::new();
        let mut i: usize = 0;
        while i < KEY_COUNT
            invariant
                self.wf(),
                before.wf(),
                i <= KEY_COUNT,
                forall|j: int| 0 <= j < i ==> self.slots@[j] is None,
                forall|j: int| i <= j < KEY_COUNT ==> self.slots@[j] == before.slots@[j],
                forall|m: int| 0 <= m < r@.len() ==> (#[trigger] r@[m]).0.spec_index() < i
                    && before.pending(r@[m].0) == Some(r@[m].1),
                forall|k: KeyCode| k.spec_index() < i && before.pending(k) is Some ==> exists|m: int|
                    0 <= m < r@.len() && (#[trigger] r@[m]).0 == k,
                forall|m: int, n: int| 0 <= m < n < r@.len() ==> r@[m].0.spec_index() < r@[n].0.spec_index(),
            decreases KEY_COUNT - i,
        {
            let ghost r0 = r@;
            if let Some(s) = self.slots[i] {
                let k = KeyCode::from_index(i);
                proof { lemma_index_injective(); }
                r.push((k, s));
                proof {
                    assert(r@[r@.len() - 1].0 == k);
                }
            }
            self.slots.set(i, None);
            proof {
                lemma_index_injective();
                assert forall|k: KeyCode| k.spec_index() < i + 1 && before.pending(k) is Some implies exists|m: int|
                    0 <= m < r@.len() && (#[trigger] r@[m]).0 == k by {
                    if k.spec_index() < i {
                        let m = choose|m: int| 0 <= m < r0.len() && (#[trigger] r0[m]).0 == k;
                        assert(r@[m] == r0[m]);
                    } else {
                        assert(r@[r@.len() - 1].0 == k);
                    }
                }
            }
            i = i + 1;
        }
        proof { lemma_index_injective(); }
        r
    }
}

/// Distinct keys have distinct slots, and every slot is below the count.
proof fn lemma_index_injective()
    ensures
        forall|a: KeyCode, b: KeyCode| a.spec_index() == b.spec_index() ==> a == b,
        forall|a: KeyCode| #[trigger] a.spec_index() < KEY_COUNT,
{
}

} // verus!
