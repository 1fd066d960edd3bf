use vstd::prelude::*;

verus! {

/// One step of the xorshift32 generator (shifts 13, 17, 5).
pub open spec fn xorshift_next(s: u32) -> u32 {
    let a = s ^ (s << 13u32);
    let b = a ^ (a >> 17u32);
    b ^ (b << 5u32)
}

/// The value that a draw from the inclusive range `lo..=hi` yields when the
/// generator produced the word `w`.
pub open spec fn range_value(w: u32, lo: int, hi: int) -> int {
    lo + (w as int) % (hi - lo + 1)
}

/// A small deterministic pseudo random number generator (xorshift32).
pub struct RndGen {
    pub state: u32,
}

impl RndGen {
    /// The seed every new generator starts from.
    pub open spec fn seed() -> u32 {
        0x2545_f491u32
    }

    /// A generator in its initial state.
    pub fn new() -> (r: RndGen)
        ensures
            r.state == Self::seed(),
    {
        RndGen { state: 0x2545_f491u32 }
    }

    /// Advances the generator and returns the new word.
    pub fn next_word(&mut self) -> (w: u32)
        ensures
            w == xorshift_next(old(self).state),
            final(self).state == w,
    {
        let mut x = self.state;
        x = x ^ (x << 13u32);
        x = x ^ (x >> 17u32);
        x = x ^ (x << 5u32);
        self.state = x;
        x
    }

    /// Draws an integer from the inclusive range `lo..=hi`.
    pub fn gen_range(&mut self, lo: u16, hi: u16) -> (r: u16)
        requires
            lo <= hi,
        ensures
            final(self).state == xorshift_next(old(self).state),
            r as int == range_value(final(self).state, lo as int, hi as int),
            lo <= r <= hi,
    {
        let w = self.next_word();
        let span: u32 = (hi as u32) - (lo as u32) + 1;
        let off: u32 = w % span;
        (lo as u32 + off) as u16
    }

    /// Draws a signed integer from the inclusive range `lo..=hi`.
    pub fn gen_range_i(&mut self, lo: i16, hi: i16) -> (r: i16)
        requires
            lo <= hi,
        ensures
            final(self).state == xorshift_next(old(self).state),
            r as int == range_value(final(self).state, lo as int, hi as int),
            lo <= r <= hi,
    {
        let w = self.next_word();
        let span: u32 = ((hi as i32) - (lo as i32) + 1) as u32;
        let off: u32 = w % span;
        ((lo as i32) + (off as i32)) as i16
    }
}

} // verus!
