//! Construction of a new task's initial stack frame.

use vstd::prelude::*;

use crate::task::STACK_WORDS;
use crate::task::Task;

verus! {

/// Number of 64-bit words in the saved machine-state record restored by the
/// context-switch primitive: the general-purpose registers, the stack
/// pointer, the program counter, and the flags register.
pub const STATE_WORDS: usize = 34;

/// Debug sentinel written just above the initial frame: a stack-corruption
/// tripwire, not consumed by the switch primitive.
pub const STACK_SENTINEL: u64 = 0xDEADBEEF;

/// Flags-register value of a freshly built frame: a valid
/// enabled-interrupts state.
pub const INITIAL_FLAGS: u64 = 0x1002;

/// Fill byte pattern of an initialized but unused stack, as one 64-bit word.
pub const STACK_FILL_WORD: u64 = 0xCDCDCDCDCDCDCDCD;

/// Word index of the start of the machine-state record.
pub const STATE_BOTTOM_WORD: usize = 2012;

/// Word index of the slot holding the synthetic return address.  When the
/// entry function returns it must land in the platform's task-exit
/// trampoline; the portable layout leaves the slot zero for the platform to
/// fill in before the first switch into the task.
pub const RETURN_SLOT_WORD: usize = 2046;

/// Word index of the sentinel word.
pub const SENTINEL_WORD: usize = 2047;

/// Index of the saved stack pointer within the machine-state record.
pub const STATE_SP_INDEX: usize = 31;

/// Index of the saved program counter within the machine-state record.
pub const STATE_PC_INDEX: usize = 32;

/// Index of the saved flags register within the machine-state record.
pub const STATE_FLAGS_INDEX: usize = 33;

/// The stack contents after the initial frame for entry point `func` has
/// been built: fill pattern below the machine-state record; a zeroed record
/// except for its stack-pointer, program-counter and flags words; the
/// return-address slot; and the sentinel on top.
pub open spec fn initial_stack_words(func: u64) -> Seq<u64> {
    Seq::new(
        STACK_WORDS as nat,
        |i: int|
            if i < STATE_BOTTOM_WORD {
                STACK_FILL_WORD
            } else if i == STATE_BOTTOM_WORD + STATE_SP_INDEX {
                (8 * RETURN_SLOT_WORD) as u64
            } else if i == STATE_BOTTOM_WORD + STATE_PC_INDEX {
                func
            } else if i == STATE_BOTTOM_WORD + STATE_FLAGS_INDEX {
                INITIAL_FLAGS
            } else if i < STATE_BOTTOM_WORD + STATE_WORDS {
                0u64
            } else if i == RETURN_SLOT_WORD {
                0u64
            } else {
                STACK_SENTINEL
            },
    )
}

/// Byte offset recorded as the new task's saved stack pointer: the bottom of
/// the machine-state record.
pub const INITIAL_STACK_POINTER: u64 = 16096;

/// Create the initial stack frame for a new task.
pub trait TaskFrame {
    /// Prepare the stack so that the first switch into the task resumes at
    /// the entry point `func`.
    fn create_stack_frame(&mut self, func: u64);
}

impl Task {
    /// Build the initial frame on the task's own stack, leaving the stack
    /// holding exactly [`initial_stack_words`] and the saved stack pointer
    /// addressing the machine-state record.
    pub fn build_stack_frame(&mut self, func: u64)
        requires
            old(self).stack@.len() == STACK_WORDS,
        ensures
            final(self).stack@ == initial_stack_words(func),
            final(self).last_stack_pointer == INITIAL_STACK_POINTER,
            final(self).id == old(self).id,
            final(self).status == old(self).status,
            final(self).prio == old(self).prio,
            final(self).base_prio == old(self).base_prio,
            final(self).penalty == old(self).penalty,
    {
        let mut i: usize = 0;
        while i < STACK_WORDS
            invariant
                i <= STACK_WORDS,
                self.stack@.len() == STACK_WORDS,
                forall|j: int| 0 <= j < i ==> self.stack@[j] == STACK_FILL_WORD,
                self.id == old(self).id,
                self.status == old(self).status,
                self.prio == old(self).prio,
                self.base_prio == old(self).base_prio,
                self.penalty == old(self).penalty,
                self.last_stack_pointer == old(self).last_stack_pointer,
            decreases STACK_WORDS - i,
        {
            self.stack.set_word(i, STACK_FILL_WORD);
            i = i + 1;
        }
        let mut k: usize = 0;
        while k < STATE_WORDS
            invariant
                k <= STATE_WORDS,
                self.stack@.len() == STACK_WORDS,
                forall|j: int| 0 <= j < STATE_BOTTOM_WORD ==> self.stack@[j] == STACK_FILL_WORD,
                forall|j: int|
                    STATE_BOTTOM_WORD <= j < STATE_BOTTOM_WORD + k ==> self.stack@[j] == 0u64,
                forall|j: int|
                    STATE_BOTTOM_WORD + k <= j < STACK_WORDS ==> self.stack@[j] == STACK_FILL_WORD,
                self.id == old(self).id,
                self.status == old(self).status,
                self.prio == old(self).prio,
                self.base_prio == old(self).base_prio,
                self.penalty == old(self).penalty,
                self.last_stack_pointer == old(self).last_stack_pointer,
            decreases STATE_WORDS - k,
        {
            self.stack.set_word(STATE_BOTTOM_WORD + k, 0u64);
            k = k + 1;
        }
        self.stack.set_word(STATE_BOTTOM_WORD + STATE_SP_INDEX, (8 * RETURN_SLOT_WORD) as u64);
        self.stack.set_word(STATE_BOTTOM_WORD + STATE_PC_INDEX, func);
        self.stack.set_word(STATE_BOTTOM_WORD + STATE_FLAGS_INDEX, INITIAL_FLAGS);
        self.stack.set_word(RETURN_SLOT_WORD, 0u64);
        self.stack.set_word(SENTINEL_WORD, STACK_SENTINEL);
        self.last_stack_pointer = INITIAL_STACK_POINTER;
        proof {
            assert(self.stack@ =~= initial_stack_words(func));
        }
    }
}

impl TaskFrame for Task {
    fn create_stack_frame(&mut self, func: u64) {
        if self.stack.word_count() == STACK_WORDS {
            Task::build_stack_frame(self, func);
        }
    }
}

} // verus!
