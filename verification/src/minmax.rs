use vstd::prelude::*;

verus! {

/// Update a value to the smaller (`setmin`) or larger (`setmax`) of itself
/// and `v`; both return whether the value changed.
pub trait SetMinMax: Sized {
    fn setmin(&mut self, v: Self) -> bool;

    fn setmax(&mut self, v: Self) -> bool;
}

impl SetMinMax for i32 {
    fn setmin(&mut self, v: i32) -> (changed: bool)
        ensures
            changed == (v < *old(self)),
            *final(self) == (if v < *old(self) {
                v
            } else {
                *old(self)
            }),
    {
        if *self > v {
            *self = v;
            true
        } else {
            false
        }
    }

    fn setmax(&mut self, v: i32) -> (changed: bool)
        ensures
            changed == (*old(self) < v),
            *final(self) == (if *old(self) < v {
                v
            } else {
                *old(self)
            }),
    {
        if *self < v {
            *self = v;
            true
        } else {
            false
        }
    }
}

impl SetMinMax for i64 {
    fn setmin(&mut self, v: i64) -> (changed: bool)
        ensures
            changed == (v < *old(self)),
            *final(self) == (if v < *old(self) {
                v
            } else {
                *old(self)
            }),
    {
        if *self > v {
            *self = v;
            true
        } else {
            false
        }
    }

    fn setmax(&mut self, v: i64) -> (changed: bool)
        ensures
            changed == (*old(self) < v),
            *final(self) == (if *old(self) < v {
                v
            } else {
                *old(self)
            }),
    {
        if *self < v {
            *self = v;
            true
        } else {
            false
        }
    }
}

impl SetMinMax for i128 {
    fn setmin(&mut self, v: i128) -> (changed: bool)
        ensures
            changed == (v < *old(self)),
            *final(self) == (if v < *old(self) {
                v
            } else {
                *old(self)
            }),
    {
        if *self > v {
            *self = v;
            true
        } else {
            false
        }
    }

    fn setmax(&mut self, v: i128) -> (changed: bool)
        ensures
            changed == (*old(self) < v),
            *final(self) == (if *old(self) < v {
                v
            } else {
                *old(self)
            }),
    {
        if *self < v {
            *self = v;
            true
        } else {
            false
        }
    }
}

impl SetMinMax for u32 {
    fn setmin(&mut self, v: u32) -> (changed: bool)
        ensures
            changed == (v < *old(self)),
            *final(self) == (if v < *old(self) {
                v
            } else {
                *old(self)
            }),
    {
        if *self > v {
            *self = v;
            true
        } else {
            false
        }
    }

    fn setmax(&mut self, v: u32) -> (changed: bool)
        ensures
            changed == (*old(self) < v),
            *final(self) == (if *old(self) < v {
                v
            } else {
                *old(self)
            }),
    {
        if *self < v {
            *self = v;
            true
        } else {
            false
        }
    }
}

impl SetMinMax for u64 {
    fn setmin(&mut self, v: u64) -> (changed: bool)
        ensures
            changed == (v < *old(self)),
            *final(self) == (if v < *old(self) {
                v
            } else {
                *old(self)
            }),
    {
        if *self > v {
            *self = v;
            true
        } else {
            false
        }
    }

    fn setmax(&mut self, v: u64) -> (changed: bool)
        ensures
            changed == (*old(self) < v),
            *final(self) == (if *old(self) < v {
                v
            } else {
                *old(self)
            }),
    {
        if *self < v {
            *self = v;
            true
        } else {
            false
        }
    }
}

impl SetMinMax for usize {
    fn setmin(&mut self, v: usize) -> (changed: bool)
        ensures
            changed == (v < *old(self)),
            *final(self) == (if v < *old(self) {
                v
            } else {
                *old(self)
            }),
    {
        if *self > v {
            *self = v;
            true
        } else {
            false
        }
    }

    fn setmax(&mut self, v: usize) -> (changed: bool)
        ensures
            changed == (*old(self) < v),
            *final(self) == (if *old(self) < v {
                v
            } else {
                *old(self)
            }),
    {
        if *self < v {
            *self = v;
            true
        } else {
            false
        }
    }
}

} // verus!
