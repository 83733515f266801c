//! Sequences: the numbers that autoincrement columns are filled from.

use vstd::prelude::*;

verus! {

/// What a sequence was made with, and how far its numbers are allocated.
#[derive(Debug, PartialEq, Eq)]
pub struct SequenceSchema {
    pub sequence_id: u32,
    pub sequence_name: String,
    pub table_id: u32,
    pub col_id: u32,
    pub increment: i128,
    pub start: i128,
    pub min_value: i128,
    pub max_value: i128,
    pub allocated: i128,
}

/// What a sequence is.
#[verifier::ext_equal]
pub struct SequenceModel {
    pub sequence_id: u32,
    pub sequence_name: Seq<char>,
    pub table_id: u32,
    pub col_id: u32,
    pub increment: i128,
    pub start: i128,
    pub min_value: i128,
    pub max_value: i128,
    /// The number at which the allocation is used up.
    pub allocated: i128,
    /// The number to give out next.
    pub value: i128,
}

impl SequenceModel {
    /// The number that follows `value`: one increment on, or, past one end of the range, the
    /// other end.
    pub open spec fn after(self, value: i128) -> i128 {
        if value + self.increment > self.max_value {
            self.min_value
        } else if value + self.increment < self.min_value {
            self.max_value
        } else {
            (value + self.increment) as i128
        }
    }

    /// The number `n` places on.
    pub open spec fn nth(self, n: nat) -> i128
        decreases n,
    {
        if n == 0 {
            self.value
        } else {
            self.after(self.nth((n - 1) as nat))
        }
    }

    /// Nothing of the allocation is left.
    pub open spec fn exhausted(self) -> bool {
        self.value == self.allocated
    }

    /// The sequence once its next number has been given out.
    pub open spec fn advanced(self) -> SequenceModel {
        SequenceModel { value: self.after(self.value), ..self }
    }

    /// The sequence with nothing left of its allocation.
    pub open spec fn used_up(self) -> SequenceModel {
        self.allocated_to(self.value)
    }

    /// The sequence with its numbers allocated up to `allocated`.
    pub open spec fn allocated_to(self, allocated: i128) -> SequenceModel {
        SequenceModel { allocated, ..self }
    }
}

/// A sequence in use.
pub struct Sequence {
    schema: SequenceSchema,
    value: i128,
}

impl View for Sequence {
    type V = SequenceModel;

    closed spec fn view(&self) -> SequenceModel {
        SequenceModel {
            sequence_id: self.schema.sequence_id,
            sequence_name: self.schema.sequence_name@,
            table_id: self.schema.table_id,
            col_id: self.schema.col_id,
            increment: self.schema.increment,
            start: self.schema.start,
            min_value: self.schema.min_value,
            max_value: self.schema.max_value,
            allocated: self.schema.allocated,
            value: self.value,
        }
    }
}

impl View for SequenceSchema {
    type V = SequenceModel;

    /// The sequence that has not yet given out a number.
    open spec fn view(&self) -> SequenceModel {
        SequenceModel {
            sequence_id: self.sequence_id,
            sequence_name: self.sequence_name@,
            table_id: self.table_id,
            col_id: self.col_id,
            increment: self.increment,
            start: self.start,
            min_value: self.min_value,
            max_value: self.max_value,
            allocated: self.allocated,
            value: self.start,
        }
    }
}

impl Sequence {
    pub fn new(schema: SequenceSchema) -> (r: Self)
        ensures
            r@ == schema@,
    {
        let value: i128 = schema.start;
        Sequence { schema, value }
    }

    /// Whether nothing of the allocation is left.
    pub fn is_exhausted(&self) -> (r: bool)
        ensures
            r == self@.exhausted(),
    {
        self.value == self.schema.allocated
    }

    /// Gives out the next number, where the allocation still holds one.
    pub fn gen_next_value(&mut self) -> (r: Option<i128>)
        ensures
            match r {
                Some(v) => !old(self)@.exhausted() && v == old(self)@.value && final(self)@ == old(
                    self,
                )@.advanced(),
                None => old(self)@.exhausted() && *final(self) == *old(self),
            },
    {
        if self.value == self.schema.allocated {
            return None;
        }
        let value: i128 = self.value;
        self.value = self.value_after(value);
        assert(self@ =~= old(self)@.advanced());
        Some(value)
    }

    fn value_after(&self, value: i128) -> (r: i128)
        ensures
            r == self@.after(value),
    {
        match value.checked_add(self.schema.increment) {
            Some(next) => {
                if next > self.schema.max_value {
                    self.schema.min_value
                } else if next < self.schema.min_value {
                    self.schema.max_value
                } else {
                    next
                }
            },
            None => {
                if self.schema.increment > 0 {
                    self.schema.min_value
                } else {
                    self.schema.max_value
                }
            },
        }
    }

    /// The number `n` places on.
    pub fn nth_value(&self, n: usize) -> (r: i128)
        ensures
            r == self@.nth(n as nat),
    {
        let mut value: i128 = self.value;
        for i in 0..n
            invariant
                value == self@.nth(i as nat),
        {
            value = self.value_after(value);
        }
        value
    }

    /// Lets go of what is left of the allocation.
    pub fn use_up(&mut self)
        ensures
            final(self)@ == old(self)@.used_up(),
    {
        let value: i128 = self.value;
        self.set_allocation(value);
    }

    pub fn set_allocation(&mut self, allocated: i128)
        ensures
            final(self)@ == old(self)@.allocated_to(allocated),
    {
        self.schema.allocated = allocated;
        assert(self@ =~= old(self)@.allocated_to(allocated));
    }
}

} // verus!
