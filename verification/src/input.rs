use vstd::prelude::*;

verus! {

/// The keys the simulator reacts to.
#[derive(Clone, Copy, PartialEq, Eq, Debug)]
pub enum Key {
    A,
    D,
    W,
    S,
    Q,
    E,
    ArrowLeft,
    ArrowRight,
    ArrowUp,
    ArrowDown,
    Space,
    Escape,
    /// Any other key.
    Other,
}

/// A camera axis, in the camera's own frame.
#[derive(Clone, Copy, PartialEq, Eq, Debug)]
pub enum Axis {
    X,
    Y,
    Z,
}

/// What a key press asks for.
#[derive(Clone, Copy, PartialEq, Eq, Debug)]
pub enum Command {
    /// Close the window.
    Exit,
    /// Move the camera's target one step along the axis, toward its positive
    /// end when the flag is set.
    Pan(Axis, bool),
    /// Turn the camera one step about the world's vertical axis, positively
    /// when the flag is set.
    Yaw(bool),
    /// Tilt the camera one step about its own horizontal axis, positively
    /// when the flag is set.
    Pitch(bool),
    /// Pause the simulation, or resume it.
    TogglePause,
    /// Nothing.
    Ignore,
}

/// The command for a key press. Escape always closes the window; the other
/// keys act only when the control panel has not taken the press: A and D pan
/// along X, Q and E along Y (up, down), W and S along Z (forward is negative),
/// the left and right arrows turn the camera, the up and down arrows tilt it,
/// and Space pauses or resumes.
pub fn key_command(key: Key, taken_by_panel: bool) -> (c: Command)
    ensures
        c == (if key == Key::Escape {
            Command::Exit
        } else if taken_by_panel {
            Command::Ignore
        } else {
            match key {
                Key::A => Command::Pan(Axis::X, false),
                Key::D => Command::Pan(Axis::X, true),
                Key::W => Command::Pan(Axis::Z, false),
                Key::S => Command::Pan(Axis::Z, true),
                Key::Q => Command::Pan(Axis::Y, true),
                Key::E => Command::Pan(Axis::Y, false),
                Key::ArrowLeft => Command::Yaw(false),
                Key::ArrowRight => Command::Yaw(true),
                Key::ArrowUp => Command::Pitch(false),
                Key::ArrowDown => Command::Pitch(true),
                Key::Space => Command::TogglePause,
                _ => Command::Ignore,
            }
        }),
{
    if let Key::Escape = key {
        return Command::Exit;
    }
    if taken_by_panel {
        return Command::Ignore;
    }
    match key {
        Key::A => Command::Pan(Axis::X, false),
        Key::D => Command::Pan(Axis::X, true),
        Key::W => Command::Pan(Axis::Z, false),
        Key::S => Command::Pan(Axis::Z, true),
        Key::Q => Command::Pan(Axis::Y, true),
        Key::E => Command::Pan(Axis::Y, false),
        Key::ArrowLeft => Command::Yaw(false),
        Key::ArrowRight => Command::Yaw(true),
        Key::ArrowUp => Command::Pitch(false),
        Key::ArrowDown => Command::Pitch(true),
        Key::Space => Command::TogglePause,
        _ => Command::Ignore,
    }
}

/// The first position of `s` whose entry carries the identifier `id`.
pub open spec fn first_with_id<P>(s: Seq<(u64, P)>, id: u64) -> Option<int> {
    if exists|k: int| 0 <= k < s.len() && s[k].0 == id {
        Some(choose|k: int| 0 <= k < s.len() && s[k].0 == id && forall|j: int| 0 <= j < k ==> s[j].0 != id)
    } else {
        None
    }
}

/// The entries of `s` whose identifier differs from `id`, in order.
pub open spec fn without_id<P>(s: Seq<(u64, P)>, id: u64) -> Seq<(u64, P)> {
    s.filter(|e: (u64, P)| e.0 != id)
}

/// The fingers currently on the screen, in the order they touched it, each
/// with its identifier and last known position.
pub struct Touches<P> {
    pub active: Vec<(u64, P)>,
}

impl<P: Copy> Touches<P> {
    /// No finger on the screen.
    pub fn new() -> (t: Self)
        ensures
            t.active@.len() == 0,
    {
        Touches { active: Vec::new() }
    }

    /// Records a new finger. Returns whether exactly two fingers are now on
    /// the screen, the moment a pinch starts.
    pub fn start(&mut self, id: u64, pos: P) -> (pinch_starts: bool)
        ensures
            final(self).active@ == old(self).active@.push((id, pos)),
            pinch_starts == (final(self).active@.len() == 2),
    {
        self.active.push((id, pos));
        self.active.len() == 2
    }

    /// Moves the first finger with identifier `id` to `pos` and returns its
    /// previous position; returns `None` and changes nothing when no finger
    /// has that identifier.
    pub fn move_to(&mut self, id: u64, pos: P) -> (previous: Option<P>)
        ensures
            match first_with_id(old(self).active@, id) {
                Some(k) => previous == Some(old(self).active@[k].1)
                    && final(self).active@ == old(self).active@.update(k, (id, pos)),
                None => previous is None && final(self).active@ == old(self).active@,
            },
    {
        let n = self.active.len();
        let mut k: usize = 0;
        while k < n
            invariant
                n == self.active@.len(),
                self.active@ == old(self).active@,
                k <= n,
                forall|j: int| 0 <= j < k ==> self.active@[j].0 != id,
            decreases n - k,
        {
            if self.active[k].0 == id {
                let previous = self.active[k].1;
                proof {
                    let s = old(self).active@;
                    assert(exists|x: int| 0 <= x < s.len() && s[x].0 == id);
                    let c = choose|x: int| 0 <= x < s.len() && s[x].0 == id && forall|j: int| 0 <= j < x ==> s[j].0 != id;
                    if c < k as int {
                    } else if (k as int) < c {
                        assert(s[k as int].0 != id);
                    }
                    assert(first_with_id(s, id) == Some(k as int));
                }
                self.active.set(k, (id, pos));
                return Some(previous);
            }
            k = k + 1;
        }
        None
    }

    /// Forgets every finger with identifier `id`. Returns whether fewer than
    /// two fingers remain, the moment a pinch ends.
    pub fn end(&mut self, id: u64) -> (pinch_ends: bool)
        ensures
            final(self).active@ == without_id(old(self).active@, id),
            pinch_ends == (final(self).active@.len() < 2),
    {
        let ghost s = self.active@;
        let mut all: Vec<(u64, P)> = Vec::new();
        std::mem::swap(&mut all, &mut self.active);
        let n = all.len();
        let mut k: usize = 0;
        while k < n
            invariant
                n == all@.len(),
                all@ == s,
                k <= n,
                self.active@ == without_id(s.take(k as int), id),
            decreases n - k,
        {
            let e = all[k];
            proof {
                assert(s.take(k as int + 1).drop_last() =~= s.take(k as int));
                reveal_with_fuel(Seq::filter, 1);
            }
            if e.0 != id {
                self.active.push(e);
            }
            k = k + 1;
        }
        proof {
            assert(s.take(n as int) =~= s);
        }
        self.active.len() < 2
    }
}

} // verus!
