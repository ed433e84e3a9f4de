//! Which keys and mouse buttons are down, and which went down or up during
//! the current frame.
use vstd::prelude::*;

verus! {

/// A key or a mouse button, by its code.
#[derive(Clone, Copy, PartialEq, Eq, Structural, Debug, Hash)]
pub enum Input {
    Key(u32),
    Button(u32),
}

/// The sets after `input` went down (`pressed`) or up.
pub open spec fn register_spec(s: (Set<Input>, Set<Input>, Set<Input>), input: Input, pressed: bool) -> (Set<Input>, Set<Input>, Set<Input>) {
    if pressed {
        (s.0.insert(input), s.1, s.2.insert(input))
    } else {
        (s.0, s.1.insert(input), s.2.remove(input))
    }
}

/// The sets after the events of `events`, in order.
pub open spec fn apply_events(s: (Set<Input>, Set<Input>, Set<Input>), events: Seq<(Input, bool)>) -> (Set<Input>, Set<Input>, Set<Input>)
    decreases events.len(),
{
    if events.len() == 0 {
        s
    } else {
        register_spec(apply_events(s, events.drop_last()), events.last().0, events.last().1)
    }
}

/// Whether `input` counts as down: it is, or it went down this frame.
pub open spec fn pressed_spec(s: (Set<Input>, Set<Input>, Set<Input>), input: Input) -> bool {
    s.0.contains(input) || s.2.contains(input)
}

/// A set of inputs, each once.
struct InputSet {
    items: Vec<Input>,
}

impl InputSet {
    spec fn view(&self) -> Set<Input> {
        self.items@.to_set()
    }

    spec fn wf(&self) -> bool {
        forall|i: int, j: int| 0 <= i < j < self.items.len() ==> self.items@[i] != self.items@[j]
    }

    fn new() -> (r: Self)
        ensures
            r.wf(),
            r.view() == Set::<Input>::empty(),
    {
        let r = InputSet { items: Vec::new() };
        proof {
            assert(r.view() =~= Set::<Input>::empty());
        }
        r
    }

    fn position(&self, input: Input) -> (r: Option<usize>)
        ensures
            match r {
                Some(i) => i < self.items.len() && self.items@[i as int] == input,
                None => !self.view().contains(input),
            },
    {
        let mut i: usize = 0;
        while i < self.items.len()
            invariant
                i <= self.items.len(),
                forall|j: int| 0 <= j < i ==> self.items@[j] != input,
            decreases self.items.len() - i,
        {
            if self.items[i] == input {
                return Some(i);
            }
            i = i + 1;
        }
        None
    }

    fn contains(&self, input: Input) -> (r: bool)
        ensures
            r == self.view().contains(input),
    {
        self.position(input).is_some()
    }

    fn insert(&mut self, input: Input)
        requires
            old(self).wf(),
        ensures
            final(self).wf(),
            final(self).view() == old(self).view().insert(input),
    {
        if self.position(input).is_none() {
            self.items.push(input);
            proof {
                let before = old(self).items@;
                assert(self.items@ =~= before.push(input));
                assert forall|x: Input| #[trigger] self.view().contains(x) == old(self).view().insert(input).contains(x) by {
                    if x == input {
                        assert(self.items@[before.len() as int] == input);
                    } else {
                        if self.view().contains(x) {
                            let k = choose|k: int| 0 <= k < self.items.len() && self.items@[k] == x;
                            assert(before[k] == x);
                        }
                        if old(self).view().contains(x) {
                            let k = choose|k: int| 0 <= k < before.len() && before[k] == x;
                            assert(self.items@[k] == x);
                        }
                    }
                }
                assert(self.view() =~= old(self).view().insert(input));
            }
        } else {
            proof {
                assert(self.view() =~= old(self).view().insert(input));
            }
        }
    }

    fn remove(&mut self, input: Input)
        requires
            old(self).wf(),
        ensures
            final(self).wf(),
            final(self).view() == old(self).view().remove(input),
    {
        match self.position(input) {
            Some(i) => {
                let ghost before = self.items@;
                self.items.swap_remove(i);
                proof {
                    let n = before.len() - 1;
                    assert(self.items@ =~= before.update(i as int, before.last()).drop_last());
                    assert forall|a: int, b: int| 0 <= a < b < self.items.len() implies self.items@[a] != self.items@[b] by {
                        let a2 = if a == i { n } else { a };
                        let b2 = if b == i { n } else { b };
                        assert(self.items@[a] == before[a2]);
                        assert(self.items@[b] == before[b2]);
                    }
                    assert forall|x: Input| #[trigger] self.view().contains(x) == old(self).view().remove(input).contains(x) by {
                        if self.view().contains(x) {
                            let k = choose|k: int| 0 <= k < self.items.len() && self.items@[k] == x;
                            let k2 = if k == i { n } else { k };
                            assert(before[k2] == x);
                            assert(k2 != i);
                        }
                        if old(self).view().remove(input).contains(x) {
                            let k = choose|k: int| 0 <= k < before.len() && before[k] == x;
                            assert(k != i);
                            if k == n {
                                assert(self.items@[i as int] == x);
                            } else {
                                assert(self.items@[k] == x);
                            }
                        }
                    }
                    assert(self.view() =~= old(self).view().remove(input));
                }
            },
            None => {
                proof {
                    assert(self.view() =~= old(self).view().remove(input));
                }
            },
        }
    }

    fn clear(&mut self)
        ensures
            final(self).wf(),
            final(self).view() == Set::<Input>::empty(),
    {
        *self = InputSet::new();
    }
}

/// The state of the keys and mouse buttons.
pub struct InputsState {
    just_pressed: InputSet,
    just_released: InputSet,
    pressed: InputSet,
}

impl InputsState {
    /// Gone down this frame, gone up this frame, down.
    pub closed spec fn sets(&self) -> (Set<Input>, Set<Input>, Set<Input>) {
        (self.just_pressed.view(), self.just_released.view(), self.pressed.view())
    }

    pub closed spec fn wf(&self) -> bool {
        self.just_pressed.wf() && self.just_released.wf() && self.pressed.wf()
    }

    /// Nothing down.
    pub fn new() -> (r: Self)
        ensures
            r.wf(),
            r.sets() == (Set::<Input>::empty(), Set::<Input>::empty(), Set::<Input>::empty()),
    {
        InputsState { just_pressed: InputSet::new(), just_released: InputSet::new(), pressed: InputSet::new() }
    }

    /// Starts a new frame: nothing has gone down or up in it yet.
    pub fn frame_clear(&mut self)
        requires
            old(self).wf(),
        ensures
            final(self).wf(),
            final(self).sets() == (Set::<Input>::empty(), Set::<Input>::empty(), old(self).sets().2),
    {
        self.just_pressed.clear();
        self.just_released.clear();
    }

    /// `input` went down (`pressed`) or up.
    pub fn register_input_event(&mut self, input: Input, pressed: bool)
        requires
            old(self).wf(),
        ensures
            final(self).wf(),
            final(self).sets() == register_spec(old(self).sets(), input, pressed),
    {
        if pressed {
            self.just_pressed.insert(input);
            self.pressed.insert(input);
        } else {
            self.just_released.insert(input);
            self.pressed.remove(input);
        }
    }

    /// Whether `input` went down this frame.
    pub fn just_pressed(&self, input: Input) -> (r: bool)
        ensures
            r == self.sets().0.contains(input),
    {
        self.just_pressed.contains(input)
    }

    /// Whether `input` went up this frame.
    pub fn just_released(&self, input: Input) -> (r: bool)
        ensures
            r == self.sets().1.contains(input),
    {
        self.just_released.contains(input)
    }

    /// Whether `input` is down, or went down this frame: a press and a
    /// release within one frame still show as down for that frame.
    pub fn pressed(&self, input: Input) -> (r: bool)
        ensures
            r == pressed_spec(self.sets(), input),
    {
        self.just_pressed.contains(input) || self.pressed.contains(input)
    }
}

/// Once `input` went down in a frame, it shows as down for the rest of the
/// frame, whatever other events come in it.
pub proof fn lemma_press_lasts_the_frame(s: (Set<Input>, Set<Input>, Set<Input>), input: Input, events: Seq<(Input, bool)>)
    ensures
        pressed_spec(apply_events(register_spec(s, input, true), events), input),
        apply_events(register_spec(s, input, true), events).0.contains(input),
    decreases events.len(),
{
    if events.len() > 0 {
        lemma_press_lasts_the_frame(s, input, events.drop_last());
    }
}

/// Whether `input` is held after `events`: as the last event of `input`
/// among them says, or `held` when there is none.
pub open spec fn held_after(held: bool, events: Seq<(Input, bool)>, input: Input) -> bool
    decreases events.len(),
{
    if events.len() == 0 {
        held
    } else if events.last().0 == input {
        events.last().1
    } else {
        held_after(held, events.drop_last(), input)
    }
}

/// After a run of events, `input` counts as down exactly when it went down
/// in them (or earlier in the frame), or the last of its events was a
/// press, or, with no event of it, it was held before.
pub proof fn lemma_pressed_law(s: (Set<Input>, Set<Input>, Set<Input>), input: Input, events: Seq<(Input, bool)>)
    ensures
        apply_events(s, events).2.contains(input) == held_after(s.2.contains(input), events, input),
        apply_events(s, events).0.contains(input) == (s.0.contains(input) || events.contains((input, true))),
        pressed_spec(apply_events(s, events), input) == (apply_events(s, events).0.contains(input)
            || held_after(s.2.contains(input), events, input)),
    decreases events.len(),
{
    if events.len() > 0 {
        let rest = events.drop_last();
        lemma_pressed_law(s, input, rest);
        if events.contains((input, true)) && !rest.contains((input, true)) {
            let j = choose|j: int| 0 <= j < events.len() && events[j] == (input, true);
            if j < rest.len() {
                assert(rest[j] == events[j]);
            }
        }
        if rest.contains((input, true)) {
            let j = choose|j: int| 0 <= j < rest.len() && rest[j] == (input, true);
            assert(events[j] == rest[j]);
        }
        if events.last() == (input, true) {
            assert(events[events.len() - 1] == (input, true));
        }
    }
}

} // verus!
