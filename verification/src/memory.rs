//! The calculator's memory: the value stack, the 256 registers and the
//! settings (precision, input and output radix, random seed).
use crate::eval::Error;
use crate::fixed::{dec_to_string, Dec, Fixed};
use vstd::prelude::*;

verus! {

/// A value as the contracts see it.
pub enum Item {
    Number(Dec),
    Text(Seq<u8>),
}

/// A value of the calculator: a number or a string (a macro).
#[derive(Debug)]
pub enum Value {
    Number(Fixed),
    String(Vec<u8>),
}

impl View for Value {
    type V = Item;

    open spec fn view(&self) -> Item {
        match self {
            Value::Number(n) => Item::Number(n@),
            Value::String(s) => Item::Text(s@),
        }
    }
}

impl Clone for Value {
    fn clone(&self) -> (r: Self)
        ensures
            r@ == self@,
    {
        match self {
            Value::Number(n) => Value::Number(n.clone()),
            Value::String(s) => Value::String(s.clone()),
        }
    }
}

impl Default for Value {
    /// Zero, the value of every register at the start.
    fn default() -> (r: Value)
        ensures
            r@ == zero_item(),
    {
        Value::Number(Fixed::zero())
    }
}

pub open spec fn zero_item() -> Item {
    Item::Number(Dec { value: 0, scale: 0 })
}

/// The memory as the contracts see it.
pub struct State {
    pub stack: Seq<Item>,
    pub register: Seq<Item>,
    /// Digits kept after the point by `*`, `/`, `%`, `^` and `v`.
    pub precision: u32,
    pub input_radix: u32,
    pub output_radix: u32,
    pub seed: u32,
}

/// A string fits in memory (its length is at most `isize::MAX`).
pub open spec fn item_fits(v: Item) -> bool {
    v matches Item::Text(s) ==> s.len() <= isize::MAX
}

impl State {
    /// There are 256 registers, both radixes lie in `2..=16`, and every
    /// string fits in memory.
    pub open spec fn wf(self) -> bool {
        &&& self.register.len() == 256
        &&& forall|i: int| 0 <= i < self.stack.len() ==> item_fits(#[trigger] self.stack[i])
        &&& forall|i: int| 0 <= i < self.register.len() ==> item_fits(#[trigger] self.register[i])
        &&& 2 <= self.input_radix <= 16
        &&& 2 <= self.output_radix <= 16
    }

    pub open spec fn initial() -> State {
        State {
            stack: Seq::empty(),
            register: Seq::new(256, |i: int| zero_item()),
            precision: 0,
            input_radix: 10,
            output_radix: 10,
            seed: 0,
        }
    }

    pub open spec fn with_stack(self, stack: Seq<Item>) -> State {
        State { stack, ..self }
    }

    pub open spec fn push(self, v: Item) -> State {
        self.with_stack(self.stack.push(v))
    }
}

/// The result of popping two numbers: the stack after the pops and the
/// numbers (second from the top, top), or the error.  Both values are
/// popped even when they are not numbers; a lone value is popped too.
pub open spec fn pop_two(st: State) -> (State, Result<(Dec, Dec), Error>) {
    let s = st.stack;
    if s.len() == 0 {
        (st, Err(Error::EmptyStack))
    } else if s.len() == 1 {
        (st.with_stack(s.drop_last()), Err(Error::EmptyStack))
    } else {
        let rest = st.with_stack(s.drop_last().drop_last());
        match (s[s.len() - 2], s.last()) {
            (Item::Number(l), Item::Number(r)) => (rest, Ok((l, r))),
            _ => (rest, Err(Error::NaN)),
        }
    }
}

/// The stack, the registers and the settings of the calculator.
#[derive(Debug)]
pub struct Memory {
    stack: Vec<Value>,
    register: Vec<Value>,
    precision: u32,
    input_radix: u32,
    output_radix: u32,
    seed: u32,
}

pub open spec fn items(v: Seq<Value>) -> Seq<Item> {
    v.map_values(|x: Value| x@)
}

impl View for Memory {
    type V = State;

    closed spec fn view(&self) -> State {
        State {
            stack: items(self.stack@),
            register: items(self.register@),
            precision: self.precision,
            input_radix: self.input_radix,
            output_radix: self.output_radix,
            seed: self.seed,
        }
    }
}

impl Default for Memory {
    /// An empty stack, every register zero, precision 0, radix 10 for input
    /// and output, seed 0.
    fn default() -> (r: Memory)
        ensures
            r@ == State::initial(),
            r@.wf(),
    {
        let mut register: Vec<Value> = Vec::new();
        let mut k: usize = 0;
        while k < 256
            invariant
                k <= 256,
                register@.len() == k,
                forall|i: int| 0 <= i < k ==> #[trigger] register@[i]@ == zero_item(),
            decreases 256 - k,
        {
            register.push(Value::default());
            k += 1;
        }
        let r = Memory {
            stack: Vec::new(),
            register,
            precision: 0,
            input_radix: 10,
            output_radix: 10,
            seed: 0,
        };
        assert(items(r.stack@) =~= Seq::<Item>::empty());
        assert(items(r.register@) =~= Seq::new(256, |i: int| zero_item()));
        r
    }
}

impl Memory {
    /// Pop two numbers from the stack or fail.
    pub(crate) fn two_numbers(&mut self) -> (r: Result<(Fixed, Fixed), Error>)
        ensures
            final(self)@ == pop_two(old(self)@).0,
            match (r, pop_two(old(self)@).1) {
                (Ok((l, r)), Ok((dl, dr))) => l@ == dl && r@ == dr,
                (Err(e), Err(de)) => e == de,
                _ => false,
            },
    {
        let ghost old_items = items(self.stack@);
        match self.stack.pop() {
            None => Err(Error::EmptyStack),
            Some(rhs) => {
                proof {
                    assert(items(self.stack@) =~= old_items.drop_last());
                }
                match self.stack.pop() {
                    None => Err(Error::EmptyStack),
                    Some(lhs) => {
                        proof {
                            assert(items(self.stack@) =~= old_items.drop_last().drop_last());
                            assert(old_items[old_items.len() - 2] == lhs@);
                        }
                        match (lhs, rhs) {
                            (Value::Number(l), Value::Number(r)) => Ok((l, r)),
                            _ => Err(Error::NaN),
                        }
                    },
                }
            },
        }
    }
}


/// The text of a value: a number in base `radix`, a string as it is.
pub open spec fn item_text(v: Item, radix: u32) -> Seq<u8> {
    match v {
        Item::Number(d) => dec_to_string(d, radix as nat),
        Item::Text(s) => s,
    }
}

/// The texts of the values from the bottom of the stack up, each followed
/// by a space.
pub open spec fn stack_text(s: Seq<Item>, radix: u32) -> Seq<u8>
    decreases s.len(),
{
    if s.len() == 0 {
        seq![]
    } else {
        stack_text(s.drop_last(), radix) + item_text(s.last(), radix) + seq![32u8]
    }
}

impl Value {
    /// The text of the value (numbers in base `radix`).
    pub fn text(&self, radix: u32) -> (r: Vec<u8>)
        requires
            2 <= radix <= 36,
        ensures
            r@ == item_text(self@, radix),
    {
        match self {
            Value::Number(n) => n.to_string_radix(radix),
            Value::String(s) => s.clone(),
        }
    }
}

impl Memory {
    pub(crate) fn stack_len(&self) -> (r: usize)
        ensures
            r == self@.stack.len(),
    {
        self.stack.len()
    }

    pub(crate) fn push(&mut self, v: Value)
        ensures
            final(self)@ == old(self)@.push(v@),
    {
        self.stack.push(v);
        assert(items(self.stack@) =~= items(old(self).stack@).push(v@));
    }

    /// Remove the top of the stack.
    pub(crate) fn pop(&mut self) -> (r: Option<Value>)
        ensures
            match r {
                None => old(self)@.stack.len() == 0 && final(self)@ == old(self)@,
                Some(v) => {
                    &&& old(self)@.stack.len() > 0
                    &&& v@ == old(self)@.stack.last()
                    &&& final(self)@ == old(self)@.with_stack(old(self)@.stack.drop_last())
                },
            },
    {
        let r = self.stack.pop();
        assert(r is Some ==> items(self.stack@) =~= items(old(self).stack@).drop_last());
        r
    }

    /// The top of the stack.
    pub(crate) fn top(&self) -> (r: &Value)
        requires
            self@.stack.len() > 0,
        ensures
            r@ == self@.stack.last(),
    {
        &self.stack[self.stack.len() - 1]
    }

    /// Replace the top of the stack.
    pub(crate) fn replace_top(&mut self, v: Value)
        requires
            old(self)@.stack.len() > 0,
        ensures
            final(self)@ == old(self)@.with_stack(old(self)@.stack.drop_last().push(v@)),
    {
        let n = self.stack.len();
        self.stack.set(n - 1, v);
        assert(items(self.stack@) =~= items(old(self).stack@).drop_last().push(v@));
    }

    pub(crate) fn clear_stack(&mut self)
        ensures
            final(self)@ == old(self)@.with_stack(Seq::empty()),
    {
        self.stack.clear();
        assert(items(self.stack@) =~= Seq::<Item>::empty());
    }

    /// Exchange the two values on the top of the stack.
    pub(crate) fn swap_top(&mut self)
        requires
            old(self)@.stack.len() > 1,
        ensures
            final(self)@ == old(self)@.with_stack(
                old(self)@.stack.update(old(self)@.stack.len() - 2, old(self)@.stack.last()).update(
                    old(self)@.stack.len() - 1,
                    old(self)@.stack[old(self)@.stack.len() - 2],
                ),
            ),
    {
        let n = self.stack.len();
        let a = self.stack.pop().unwrap();
        let b = self.stack.pop().unwrap();
        self.stack.push(a);
        self.stack.push(b);
        assert(items(self.stack@) =~= items(old(self).stack@).update(
            n - 2,
            items(old(self).stack@).last(),
        ).update(n - 1, items(old(self).stack@)[n - 2]));
    }

    /// The value in register `r`.
    pub(crate) fn register(&self, r: u8) -> (v: &Value)
        requires
            self@.wf(),
        ensures
            v@ == self@.register[r as int],
    {
        &self.register[r as usize]
    }

    /// Store `v` in register `r`.
    pub(crate) fn set_register(&mut self, r: u8, v: Value)
        requires
            old(self)@.wf(),
        ensures
            final(self)@ == (State {
                register: old(self)@.register.update(r as int, v@),
                ..old(self)@
            }),
    {
        self.register.set(r as usize, v);
        assert(items(self.register@) =~= items(old(self).register@).update(r as int, v@));
    }

    pub(crate) fn precision(&self) -> (r: u32)
        ensures
            r == self@.precision,
    {
        self.precision
    }

    pub(crate) fn input_radix(&self) -> (r: u32)
        ensures
            r == self@.input_radix,
    {
        self.input_radix
    }

    pub(crate) fn output_radix(&self) -> (r: u32)
        ensures
            r == self@.output_radix,
    {
        self.output_radix
    }

    pub(crate) fn seed(&self) -> (r: u32)
        ensures
            r == self@.seed,
    {
        self.seed
    }

    pub(crate) fn set_precision(&mut self, p: u32)
        ensures
            final(self)@ == (State { precision: p, ..old(self)@ }),
    {
        self.precision = p;
    }

    pub(crate) fn set_input_radix(&mut self, r: u32)
        ensures
            final(self)@ == (State { input_radix: r, ..old(self)@ }),
    {
        self.input_radix = r;
    }

    pub(crate) fn set_output_radix(&mut self, r: u32)
        ensures
            final(self)@ == (State { output_radix: r, ..old(self)@ }),
    {
        self.output_radix = r;
    }

    pub(crate) fn set_seed(&mut self, seed: u32)
        ensures
            final(self)@ == (State { seed, ..old(self)@ }),
    {
        self.seed = seed;
    }

    /// The texts of all values from the bottom of the stack up, each
    /// followed by a space.
    pub(crate) fn stack_text(&self, radix: u32) -> (r: Vec<u8>)
        requires
            2 <= radix <= 36,
        ensures
            r@ == stack_text(self@.stack, radix),
    {
        let mut out: Vec<u8> = Vec::new();
        let mut k: usize = 0;
        while k < self.stack.len()
            invariant
                k <= self.stack@.len(),
                2 <= radix <= 36,
                out@ == stack_text(items(self.stack@).take(k as int), radix),
            decreases self.stack@.len() - k,
        {
            let t = self.stack[k].text(radix);
            let mut j: usize = 0;
            let ghost before = out@;
            while j < t.len()
                invariant
                    j <= t@.len(),
                    out@ == before + t@.take(j as int),
                decreases t@.len() - j,
            {
                out.push(t[j]);
                j += 1;
                assert(out@ =~= before + t@.take(j as int));
            }
            out.push(32);
            assert(items(self.stack@).take(k + 1).drop_last() =~= items(self.stack@).take(k as int));
            assert(t@.take(t@.len() as int) =~= t@);
            k += 1;
        }
        assert(items(self.stack@).take(k as int) =~= items(self.stack@));
        out
    }
}

} // verus!
