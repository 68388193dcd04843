use vstd::prelude::*;
use crate::rules::no_repeat;

verus! {

/// Records which digits a scan of one row, column or region has met so far,
/// and whether any of them came twice.
pub struct DigitTracker {
    pub found_digits: [bool; 9],
    pub okay: bool,
}

impl DigitTracker {
    /// The tracker holds exactly what a scan of `s` leaves behind.
    pub open spec fn tracks(&self, s: Seq<u32>) -> bool {
        &&& self.okay == no_repeat(s)
        &&& forall|d: int| 1 <= d <= 9 ==> #[trigger] self.found_digits[d - 1] == s.contains(d as u32)
    }

    /// A tracker that has seen nothing.
    pub fn new() -> (r: DigitTracker)
        ensures
            r.tracks(Seq::empty()),
            r.okay,
            forall|i: int| 0 <= i < 9 ==> !#[trigger] r.found_digits[i],
    {
        DigitTracker { found_digits: [false; 9], okay: true }
    }

    /// Notes one cell value; 0 is an empty cell and is ignored.
    pub fn found_digit(&mut self, digit: u32)
        requires
            digit <= 9,
        ensures
            digit == 0 ==> *final(self) == *old(self),
            digit != 0 ==> final(self).okay == (old(self).okay && !old(self).found_digits[digit - 1]),
            digit != 0 ==> final(self).found_digits@ == old(self).found_digits@.update(
                digit - 1,
                true,
            ),
            forall|s: Seq<u32>| old(self).tracks(s) ==> #[trigger] final(self).tracks(s.push(digit)),
    {
        if digit != 0 {
            if self.found_digits[(digit - 1) as usize] {
                self.okay = false;
                assert(self.found_digits@ =~= old(self).found_digits@.update(digit - 1, true));
            } else {
                self.found_digits[(digit - 1) as usize] = true;
            }
        }
        proof {
            assert forall|s: Seq<u32>| old(self).tracks(s) implies #[trigger] self.tracks(s.push(digit)) by {
                Self::lemma_found_digit(*old(self), *self, s, digit);
            }
        }
    }

    /// Scanning one more value keeps the tracker in step with the scanned sequence.
    proof fn lemma_found_digit(old_t: DigitTracker, new_t: DigitTracker, s: Seq<u32>, digit: u32)
        requires
            digit <= 9,
            old_t.tracks(s),
            digit == 0 ==> new_t == old_t,
            digit != 0 ==> new_t.okay == (old_t.okay && !old_t.found_digits[digit - 1]),
            digit != 0 ==> new_t.found_digits@ == old_t.found_digits@.update(digit - 1, true),
        ensures
            new_t.tracks(s.push(digit)),
    {
        crate::rules::lemma_no_repeat_push(s, digit);
        let t = s.push(digit);
        assert forall|d: int| 1 <= d <= 9 implies #[trigger] new_t.found_digits[d - 1] == t.contains(
            d as u32,
        ) by {
            if t.contains(d as u32) {
                let k = choose|k: int| 0 <= k < t.len() && t[k] == d as u32;
                if k < s.len() {
                    assert(s[k] == t[k]);
                }
            }
            if s.contains(d as u32) {
                let k = choose|k: int| 0 <= k < s.len() && s[k] == d as u32;
                assert(t[k] == s[k]);
            }
            assert(t[s.len() as int] == digit);
        }
        if digit != 0 {
            assert(old_t.found_digits[digit - 1] == s.contains(digit));
        }
    }
}

} // verus!
