//! Virtual keyboards: entities that keep their own record of the keys
//! pressed, fed from the global keyboard input each frame.
use vstd::prelude::*;
use vstd::string::StringExecFns;

use bevy::input::ButtonInput;

verus! {

#[verifier::external_type_specification]
#[verifier::external_body]
#[verifier::reject_recursive_types(T)]
pub struct ExButtonInput<T: Clone + Eq + core::hash::Hash + Send + Sync + 'static>(ButtonInput<T>);

/// The buttons a button input holds as pressed.
pub uninterp spec fn pressed_buttons(b: ButtonInput<u64>) -> Set<u64>;

/// The buttons a button input holds as just pressed.
pub uninterp spec fn just_pressed_buttons(b: ButtonInput<u64>) -> Set<u64>;

/// The buttons a button input holds as just released.
pub uninterp spec fn just_released_buttons(b: ButtonInput<u64>) -> Set<u64>;

/// `ButtonInput::default`: nothing pressed, just pressed or just released.
#[verifier::external_body]
fn empty_buttons() -> (b: ButtonInput<u64>)
    ensures
        pressed_buttons(b) == Set::<u64>::empty(),
        just_pressed_buttons(b) == Set::<u64>::empty(),
        just_released_buttons(b) == Set::<u64>::empty(),
{
    ButtonInput::default()
}

/// `ButtonInput::press`: the button is pressed, and just pressed unless it
/// was already pressed.
#[verifier::external_body]
fn press(b: &mut ButtonInput<u64>, k: u64)
    ensures
        pressed_buttons(*final(b)) == pressed_buttons(*old(b)).insert(k),
        just_pressed_buttons(*final(b)) == if pressed_buttons(*old(b)).contains(k) {
            just_pressed_buttons(*old(b))
        } else {
            just_pressed_buttons(*old(b)).insert(k)
        },
        just_released_buttons(*final(b)) == just_released_buttons(*old(b)),
{
    b.press(k)
}

/// `ButtonInput::release`: the button is no longer pressed, and just
/// released if it was pressed.
#[verifier::external_body]
fn release(b: &mut ButtonInput<u64>, k: u64)
    ensures
        pressed_buttons(*final(b)) == pressed_buttons(*old(b)).remove(k),
        just_released_buttons(*final(b)) == if pressed_buttons(*old(b)).contains(k) {
            just_released_buttons(*old(b)).insert(k)
        } else {
            just_released_buttons(*old(b))
        },
        just_pressed_buttons(*final(b)) == just_pressed_buttons(*old(b)),
{
    b.release(k)
}

/// `ButtonInput::pressed`: whether the button is pressed.
#[verifier::external_body]
fn is_pressed(b: &ButtonInput<u64>, k: u64) -> (r: bool)
    ensures
        r == pressed_buttons(*b).contains(k),
{
    b.pressed(k)
}

/// `ButtonInput::just_pressed`: whether the button was just pressed.
#[verifier::external_body]
fn is_just_pressed(b: &ButtonInput<u64>, k: u64) -> (r: bool)
    ensures
        r == just_pressed_buttons(*b).contains(k),
{
    b.just_pressed(k)
}

/// `ButtonInput::just_released`: whether the button was just released.
#[verifier::external_body]
fn is_just_released(b: &ButtonInput<u64>, k: u64) -> (r: bool)
    ensures
        r == just_released_buttons(*b).contains(k),
{
    b.just_released(k)
}

/// `ButtonInput::get_just_pressed`: the buttons just pressed, each once,
/// in an order the hash set it walks leaves open.
#[verifier::external_body]
fn get_just_pressed(b: &ButtonInput<u64>) -> (r: Vec<u64>)
    ensures
        r@.to_set() == just_pressed_buttons(*b),
        r@.no_duplicates(),
{
    b.get_just_pressed().copied().collect()
}

/// `ButtonInput::get_just_released`: the buttons just released, each once,
/// in an order the hash set it walks leaves open.
#[verifier::external_body]
fn get_just_released(b: &ButtonInput<u64>) -> (r: Vec<u64>)
    ensures
        r@.to_set() == just_released_buttons(*b),
        r@.no_duplicates(),
{
    b.get_just_released().copied().collect()
}

/// A virtual keyboard: the keys it holds as pressed, just pressed and just
/// released, each key by its number.
pub struct Keyboard {
    key_codes: ButtonInput<u64>,
}

/// What a keyboard holds.
pub struct KeysView {
    pub pressed: Set<u64>,
    pub just_pressed: Set<u64>,
    pub just_released: Set<u64>,
}

impl View for Keyboard {
    type V = KeysView;

    closed spec fn view(&self) -> KeysView {
        KeysView {
            pressed: pressed_buttons(self.key_codes),
            just_pressed: just_pressed_buttons(self.key_codes),
            just_released: just_released_buttons(self.key_codes),
        }
    }
}

/// A keyboard after the keys `jp` are pressed and then the keys `jr`
/// released.
pub open spec fn fed(k: KeysView, jp: Set<u64>, jr: Set<u64>) -> KeysView {
    KeysView {
        pressed: k.pressed.union(jp).difference(jr),
        just_pressed: k.just_pressed.union(jp.difference(k.pressed)),
        just_released: k.just_released.union(jr.intersect(k.pressed.union(jp))),
    }
}

impl Keyboard {
    /// A keyboard with no key pressed.
    pub fn new() -> (k: Keyboard)
        ensures
            k@.pressed == Set::<u64>::empty(),
            k@.just_pressed == Set::<u64>::empty(),
            k@.just_released == Set::<u64>::empty(),
    {
        Keyboard { key_codes: empty_buttons() }
    }

    /// Whether key `k` is pressed.
    pub fn pressed(&self, k: u64) -> (r: bool)
        ensures
            r == self@.pressed.contains(k),
    {
        is_pressed(&self.key_codes, k)
    }

    /// Whether key `k` was just pressed.
    pub fn just_pressed(&self, k: u64) -> (r: bool)
        ensures
            r == self@.just_pressed.contains(k),
    {
        is_just_pressed(&self.key_codes, k)
    }

    /// Whether key `k` was just released.
    pub fn just_released(&self, k: u64) -> (r: bool)
        ensures
            r == self@.just_released.contains(k),
    {
        is_just_released(&self.key_codes, k)
    }

    /// Presses on this keyboard every key just pressed on `global`, then
    /// releases every key just released there.
    pub fn feed(&mut self, global: &ButtonInput<u64>)
        ensures
            final(self)@ == fed(
                old(self)@,
                just_pressed_buttons(*global),
                just_released_buttons(*global),
            ),
    {
        let down = get_just_pressed(global);
        let up = get_just_released(global);
        self.feed_keys(&down, &up);
    }

    /// Presses on this keyboard every key of `down`, then releases every key
    /// of `up`.
    pub fn feed_keys(&mut self, down: &Vec<u64>, up: &Vec<u64>)
        ensures
            final(self)@ == fed(old(self)@, down@.to_set(), up@.to_set()),
    {
        let ghost k0 = self@;
        for i in 0..down.len()
            invariant
                self@.pressed == k0.pressed.union(down@.take(i as int).to_set()),
                self@.just_pressed == k0.just_pressed.union(
                    down@.take(i as int).to_set().difference(k0.pressed),
                ),
                self@.just_released == k0.just_released,
        {
            proof {
                assert(down@.take(i + 1).to_set() =~= down@.take(i as int).to_set().insert(
                    down@[i as int],
                )) by {
                    assert(down@.take(i + 1) =~= down@.take(i as int).push(down@[i as int]));
                    down@.take(i as int).lemma_push_to_set_commute(down@[i as int]);
                }
            }
            press(&mut self.key_codes, down[i]);
            assert(self@.just_pressed =~= k0.just_pressed.union(
                down@.take(i + 1).to_set().difference(k0.pressed),
            ));
            assert(self@.pressed =~= k0.pressed.union(down@.take(i + 1).to_set()));
        }
        assert(down@.take(down.len() as int) =~= down@);
        let ghost k1 = self@;
        for i in 0..up.len()
            invariant
                self@.pressed == k1.pressed.difference(up@.take(i as int).to_set()),
                self@.just_released == k1.just_released.union(
                    up@.take(i as int).to_set().intersect(k1.pressed),
                ),
                self@.just_pressed == k1.just_pressed,
        {
            proof {
                assert(up@.take(i + 1).to_set() =~= up@.take(i as int).to_set().insert(
                    up@[i as int],
                )) by {
                    assert(up@.take(i + 1) =~= up@.take(i as int).push(up@[i as int]));
                    up@.take(i as int).lemma_push_to_set_commute(up@[i as int]);
                }
            }
            release(&mut self.key_codes, up[i]);
            assert(self@.just_released =~= k1.just_released.union(
                up@.take(i + 1).to_set().intersect(k1.pressed),
            ));
            assert(self@.pressed =~= k1.pressed.difference(up@.take(i + 1).to_set()));
        }
        assert(up@.take(up.len() as int) =~= up@);
        assert(self@.pressed =~= fed(k0, down@.to_set(), up@.to_set()).pressed);
        assert(self@.just_pressed =~= fed(k0, down@.to_set(), up@.to_set()).just_pressed);
        assert(self@.just_released =~= fed(k0, down@.to_set(), up@.to_set()).just_released);
    }
}

/// Spawns a virtual keyboard: its name and its keyboard component.
pub fn spawn_virtual_keyboard() -> (r: (String, Keyboard))
    ensures
        r.0@ == "Virtual Keyboard"@,
        r.1@.pressed == Set::<u64>::empty(),
        r.1@.just_pressed == Set::<u64>::empty(),
        r.1@.just_released == Set::<u64>::empty(),
{
    (String::from_str("Virtual Keyboard"), Keyboard::new())
}

/// Feeds every virtual keyboard from the global keyboard input.
pub fn update_virtual_keyboards(keyboards: &mut Vec<Keyboard>, key_codes: &ButtonInput<u64>)
    ensures
        final(keyboards)@.len() == old(keyboards)@.len(),
        forall|i: int|
            0 <= i < old(keyboards)@.len() ==> (#[trigger] final(keyboards)@[i])@ == fed(
                old(keyboards)@[i]@,
                just_pressed_buttons(*key_codes),
                just_released_buttons(*key_codes),
            ),
{
    let n = keyboards.len();
    for i in 0..n
        invariant
            n == old(keyboards)@.len(),
            keyboards@.len() == n,
            forall|j: int|
                0 <= j < i ==> (#[trigger] keyboards@[j])@ == fed(
                    old(keyboards)@[j]@,
                    just_pressed_buttons(*key_codes),
                    just_released_buttons(*key_codes),
                ),
            forall|j: int| i <= j < n ==> #[trigger] keyboards@[j] == old(keyboards)@[j],
    {
        let mut k = Keyboard::new();
        keyboards.set_and_swap(i, &mut k);
        k.feed(key_codes);
        keyboards.set_and_swap(i, &mut k);
    }
}

} // verus!
