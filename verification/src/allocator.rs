use vstd::prelude::*;

use crate::text::string_push;

verus! {

/// The number of cells the allocator manages.
pub const ALLOCATOR_LEN: usize = 30000;

/// Hands out runs of tape cells: a cell is in use or free.
#[derive(Debug)]
pub struct BrainCrabAllocator {
    tape: Vec<bool>,
}

/// The cells `start..start + size` lie on the tape and are all free.
pub open spec fn free_run(tape: Seq<bool>, start: int, size: int) -> bool {
    &&& 0 <= start
    &&& start + size <= tape.len()
    &&& forall|j: int| start <= j < start + size ==> !#[trigger] tape[j]
}

impl View for BrainCrabAllocator {
    type V = Seq<bool>;

    /// Whether each cell is in use.
    closed spec fn view(&self) -> Seq<bool> {
        self.tape@
    }
}

impl BrainCrabAllocator {
    /// The allocator manages exactly [`ALLOCATOR_LEN`] cells.
    pub open spec fn wf(&self) -> bool {
        self@.len() == ALLOCATOR_LEN
    }

    pub fn new() -> (r: Self)
        ensures
            r.wf(),
            forall|i: int| 0 <= i < ALLOCATOR_LEN ==> !r@[i],
    {
        Self { tape: vec![false; ALLOCATOR_LEN] }
    }

    /// Marks the first run of `size` free cells as in use and gives its start;
    /// `None` when no run of `size` free cells exists.
    pub fn allocate(&mut self, size: u16) -> (r: Option<u16>)
        requires
            old(self).wf(),
            size > 0,
        ensures
            final(self).wf(),
            match r {
                Some(a) => {
                    &&& free_run(old(self)@, a as int, size as int)
                    &&& forall|b: int| 0 <= b < a ==> !free_run(old(self)@, b, size as int)
                    &&& forall|j: int|
                        0 <= j < ALLOCATOR_LEN ==> #[trigger] final(self)@[j] == if a <= j < a + size {
                            true
                        } else {
                            old(self)@[j]
                        }
                },
                None => {
                    &&& final(self)@ == old(self)@
                    &&& forall|b: int| 0 <= b ==> !free_run(old(self)@, b, size as int)
                },
            },
    {
        let mut check_index: u16 = size - 1;
        loop
            invariant
                self.wf(),
                self@ == old(self)@,
                size > 0,
                check_index + 1 >= size,
                forall|b: int| 0 <= b < check_index + 1 - size ==> !free_run(self@, b, size as int),
            ensures
                self@ == old(self)@,
                check_index >= ALLOCATOR_LEN,
                check_index + 1 >= size,
                forall|b: int| 0 <= b < check_index + 1 - size ==> !free_run(self@, b, size as int),
            decreases ALLOCATOR_LEN + size - check_index,
        {
            if check_index as usize >= self.tape.len() {
                break ;
            }
            let mut found_spot = true;
            let mut i: u16 = 0;
            while i < size
                invariant_except_break
                    found_spot,
                invariant
                    self.wf(),
                    check_index < ALLOCATOR_LEN,
                    check_index + 1 >= size,
                    i <= size,
                    forall|j: int| check_index - i < j <= check_index ==> !#[trigger] self@[j],
                ensures
                    found_spot ==> i == size,
                    !found_spot ==> i < size && self@[check_index - i],
                decreases size - i,
            {
                if self.tape[(check_index - i) as usize] {
                    found_spot = false;
                    break ;
                }
                i = i + 1;
            }
            if found_spot {
                let ghost before = self@;
                assert(free_run(before, check_index + 1 - size, size as int));
                let mut k: u16 = 0;
                while k < size
                    invariant
                        self.wf(),
                        check_index < ALLOCATOR_LEN,
                        check_index + 1 >= size,
                        k <= size,
                        forall|j: int|
                            0 <= j < ALLOCATOR_LEN ==> #[trigger] self@[j] == if check_index - k < j
                                <= check_index {
                                true
                            } else {
                                before[j]
                            },
                    decreases size - k,
                {
                    self.tape.set((check_index - k) as usize, true);
                    k = k + 1;
                }
                return Some(check_index + 1 - size);
            }
            let used = check_index - i;
            assert forall|b: int| 0 <= b < used + 1 implies !free_run(self@, b, size as int) by {
                if b >= check_index + 1 - size && b + size <= self@.len() {
                    assert(self@[used as int]);
                }
            }
            check_index = check_index + (size - i);
        }
        assert forall|b: int| 0 <= b implies !free_run(old(self)@, b, size as int) by {
            if b >= check_index + 1 - size {
                assert(b + size > ALLOCATOR_LEN);
            }
        }
        None
    }

    /// Marks the cells `index..index + size` as free.
    pub fn deallocate(&mut self, index: u16, size: u16)
        requires
            old(self).wf(),
            index + size <= ALLOCATOR_LEN,
        ensures
            final(self).wf(),
            forall|j: int|
                0 <= j < ALLOCATOR_LEN ==> #[trigger] final(self)@[j] == if index <= j < index + size {
                    false
                } else {
                    old(self)@[j]
                },
    {
        let mut i: u16 = index;
        while i < index + size
            invariant
                self.wf(),
                index <= i <= index + size,
                index + size <= ALLOCATOR_LEN,
                forall|j: int|
                    0 <= j < ALLOCATOR_LEN ==> #[trigger] self@[j] == if index <= j < i {
                        false
                    } else {
                        old(self)@[j]
                    },
            decreases index + size - i,
        {
            self.tape.set(i as usize, false);
            i = i + 1;
        }
    }
}

/// Releasing a run that was just allocated gives back the allocator as it was.
pub proof fn lemma_allocate_deallocate(
    before: Seq<bool>,
    allocated: Seq<bool>,
    freed: Seq<bool>,
    a: int,
    size: int,
)
    requires
        before.len() == ALLOCATOR_LEN,
        allocated.len() == ALLOCATOR_LEN,
        freed.len() == ALLOCATOR_LEN,
        free_run(before, a, size),
        forall|j: int|
            0 <= j < ALLOCATOR_LEN ==> #[trigger] allocated[j] == if a <= j < a + size {
                true
            } else {
                before[j]
            },
        forall|j: int|
            0 <= j < ALLOCATOR_LEN ==> #[trigger] freed[j] == if a <= j < a + size {
                false
            } else {
                allocated[j]
            },
    ensures
        freed == before,
{
    assert(freed =~= before);
}

impl Default for BrainCrabAllocator {
    fn default() -> (r: Self)
        ensures
            r.wf(),
            forall|i: int| 0 <= i < ALLOCATOR_LEN ==> !r@[i],
    {
        Self::new()
    }
}

/// `1` for a cell in use, `0` for a free one.
pub open spec fn use_char(b: bool) -> char {
    if b {
        '1'
    } else {
        '0'
    }
}

/// The use of each cell, `1` or `0`, separated by a comma and a space.
pub open spec fn use_list(s: Seq<bool>) -> Seq<char>
    decreases s.len(),
{
    if s.len() == 0 {
        Seq::empty()
    } else if s.len() == 1 {
        seq![use_char(s[0])]
    } else {
        use_list(s.drop_last()) + seq![',', ' ', use_char(s.last())]
    }
}

impl BrainCrabAllocator {
    /// The use of each cell, as a bracketed list of `1` and `0`.
    pub fn to_string(&self) -> (r: String)
        ensures
            r@ == seq!['['] + use_list(self@) + seq![']'],
    {
        let mut r = String::new();
        string_push(&mut r, '[');
        let mut i: usize = 0;
        while i < self.tape.len()
            invariant
                i <= self.tape@.len(),
                r@ == seq!['['] + use_list(self.tape@.take(i as int)),
            decreases self.tape@.len() - i,
        {
            if i > 0 {
                string_push(&mut r, ',');
                string_push(&mut r, ' ');
            }
            string_push(&mut r, if self.tape[i] { '1' } else { '0' });
            proof {
                let t = self.tape@.take(i + 1);
                assert(t.drop_last() =~= self.tape@.take(i as int));
                if i == 0 {
                    assert(use_list(t) =~= seq![use_char(self.tape@[0])]);
                }
            }
            i = i + 1;
            assert(r@ =~= seq!['['] + use_list(self.tape@.take(i as int)));
        }
        string_push(&mut r, ']');
        assert(self.tape@.take(i as int) =~= self.tape@);
        r
    }
}

} // verus!
