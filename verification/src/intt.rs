//! Interpolation of evaluations that lie in memory.

use crate::advice::{accepts_values, push_run, value_sources, AdviceProvider};
use crate::errors::{Ext2InttError, ExecutionError};
use crate::field::{Felt, QuadFelt, Word};
use crate::intt_laws::law_interpolated_memory;
use crate::ntt::{
    get_inv_twiddles, interpolate_poly, interpolates, is_domain_size, poly_eval, root_of_unity,
};
use crate::process::Process;
use vstd::arithmetic::power::pow;
use vstd::arithmetic::power2::{is_pow2, pow2};
use vstd::prelude::*;

verus! {

/// Why a request for `output_size` coefficients from `input_size` evaluations that lie in memory
/// from address `start` on, two to a word, is turned down.
pub open spec fn request_error(output_size: usize, input_size: usize, start: u64) -> Option<
    Ext2InttError,
> {
    let end = start + input_size / 2;
    if input_size <= 1 {
        Some(Ext2InttError::DomainSizeTooSmall(input_size as u64))
    } else if !is_pow2(input_size as int) {
        Some(Ext2InttError::DomainSizeNotPowerOf2(input_size as u64))
    } else if start > 0x1_0000_0000 {
        Some(Ext2InttError::InputStartAddressTooBig(start))
    } else if input_size > u32::MAX {
        Some(Ext2InttError::InputSizeTooBig(input_size as u64))
    } else if end > 0x1_0000_0000 {
        Some(Ext2InttError::InputEndAddressTooBig(end as u64))
    } else if output_size == 0 {
        Some(Ext2InttError::OutputSizeIsZero)
    } else if output_size > input_size {
        Some(Ext2InttError::OutputSizeTooBig(output_size, input_size))
    } else {
        None
    }
}

/// `addr` is the first address from `start` on and before `end` at which nothing has been written.
pub open spec fn first_unwritten(
    memory: Map<(u32, u32), Word>,
    ctx: u32,
    start: int,
    end: int,
    addr: u32,
) -> bool {
    &&& start <= addr < end
    &&& !memory.dom().contains((ctx, addr))
    &&& all_written(memory, ctx, start, addr as int)
}

/// Every address from `start` on and before `end` has been written.
pub open spec fn all_written(
    memory: Map<(u32, u32), Word>,
    ctx: u32,
    start: int,
    end: int,
) -> bool {
    forall|addr: u32| start <= addr < end ==> #[trigger] memory.dom().contains((ctx, addr))
}

/// The `size` evaluations that lie in memory from address `start` on, two to a word.
pub open spec fn evaluations_at(
    memory: Map<(u32, u32), Word>,
    ctx: u32,
    start: int,
    size: nat,
) -> Seq<QuadFelt> {
    Seq::new(
        size,
        |i: int|
            {
                let word = memory[(ctx, (start + i / 2) as u32)];
                if i % 2 == 0 {
                    QuadFelt { a0: word[0], a1: word[1] }
                } else {
                    QuadFelt { a0: word[2], a1: word[3] }
                }
            },
    )
}

/// The coordinates of the elements, in order.
pub open spec fn base_elements(elements: Seq<QuadFelt>) -> Seq<Felt> {
    Seq::new(
        2 * elements.len(),
        |i: int|
            if i % 2 == 0 {
                elements[i / 2].a0
            } else {
                elements[i / 2].a1
            },
    )
}

/// Whether `n` is a power of two.
fn is_power_of_two(n: usize) -> (result: bool)
    ensures
        result == is_pow2(n as int),
{
    if n == 0 {
        proof {
            reveal(is_pow2);
        }
        return false;
    }
    let mut rest: usize = n;
    while rest > 1
        invariant
            rest >= 1,
            is_pow2(n as int) == is_pow2(rest as int),
        decreases rest,
    {
        proof {
            reveal(is_pow2);
        }
        if rest % 2 != 0 {
            return false;
        }
        rest = rest / 2;
    }
    proof {
        reveal(is_pow2);
    }
    true
}

/// Checks a request.
fn check_request(output_size: usize, input_size: usize, start: u64) -> (result: Result<
    (),
    Ext2InttError,
>)
    ensures
        result == match request_error(output_size, input_size, start) {
            Some(error) => Err(error),
            None => Ok(()),
        },
{
    if input_size <= 1 {
        return Err(Ext2InttError::DomainSizeTooSmall(input_size as u64));
    }
    if !is_power_of_two(input_size) {
        return Err(Ext2InttError::DomainSizeNotPowerOf2(input_size as u64));
    }
    if start > 0x1_0000_0000 {
        return Err(Ext2InttError::InputStartAddressTooBig(start));
    }
    if input_size > u32::MAX as usize {
        return Err(Ext2InttError::InputSizeTooBig(input_size as u64));
    }
    let end: u64 = start + (input_size / 2) as u64;
    if end > 0x1_0000_0000 {
        return Err(Ext2InttError::InputEndAddressTooBig(end));
    }
    if output_size == 0 {
        return Err(Ext2InttError::OutputSizeIsZero);
    }
    if output_size > input_size {
        return Err(Ext2InttError::OutputSizeTooBig(output_size, input_size));
    }
    Ok(())
}

/// A power of two that is greater than one and fits in 32 bits is the order of a subgroup.
proof fn lemma_domain_size(size: nat)
    requires
        1 < size <= u32::MAX,
        is_pow2(size as int),
    ensures
        is_domain_size(size),
        size % 2 == 0,
{
    vstd::arithmetic::power2::is_pow2_equiv(size as int);
    let k = choose|k: nat| vstd::arithmetic::power::pow(2, k) == size as int;
    vstd::arithmetic::logarithm::lemma_log_pow(2, k);
    assert(size % 2 == 0) by {
        reveal(is_pow2);
    }
    if k == 0 {
        vstd::arithmetic::power::lemma_pow0(2);
    }
    if k >= 32 {
        vstd::arithmetic::power2::lemma2_to64();
        if k > 32 {
            vstd::arithmetic::power2::lemma_pow2_strictly_increases(32, k);
        }
    }
}

/// The logarithm of a number of evaluations that fits in 32 bits.
proof fn lemma_log_of_size(size: nat, log: nat)
    requires
        1 < size <= u32::MAX,
        size == pow2(log),
    ensures
        1 <= log <= 31,
{
    vstd::arithmetic::power2::lemma2_to64();
    if log > 32 {
        vstd::arithmetic::power2::lemma_pow2_strictly_increases(32, log);
    }
}

impl<A: AdviceProvider> Process<A> {
    /// Reads the evaluations that lie in memory from address `start` on and before `end`.
    fn read_evaluations(&self, start: u64, end: u64) -> (result: Result<
        Vec<QuadFelt>,
        Ext2InttError,
    >)
        requires
            start <= end <= 0x1_0000_0000,
        ensures
            match result {
                Ok(evaluations) => {
                    &&& all_written(self.memory@, self.system.ctx, start as int, end as int)
                    &&& evaluations@ == evaluations_at(
                        self.memory@,
                        self.system.ctx,
                        start as int,
                        (2 * (end - start)) as nat,
                    )
                },
                Err(error) => exists|addr: u32|
                    {
                        &&& #[trigger] first_unwritten(
                            self.memory@,
                            self.system.ctx,
                            start as int,
                            end as int,
                            addr,
                        )
                        &&& error == Ext2InttError::UninitializedMemoryAddress(addr)
                    },
            },
    {
        let mut evaluations: Vec<QuadFelt> = Vec::new();
        let mut next: u64 = start;
        while next < end
            invariant
                start <= next <= end <= 0x1_0000_0000,
                all_written(self.memory@, self.system.ctx, start as int, next as int),
                evaluations@ == evaluations_at(
                    self.memory@,
                    self.system.ctx,
                    start as int,
                    (2 * (next - start)) as nat,
                ),
            decreases end - next,
        {
            let addr: u32 = next as u32;
            let word = match self.get_memory_value(self.system.ctx, addr) {
                Some(word) => word,
                None => {
                    assert(first_unwritten(
                        self.memory@,
                        self.system.ctx,
                        start as int,
                        end as int,
                        addr,
                    ));
                    return Err(Ext2InttError::UninitializedMemoryAddress(addr));
                },
            };
            evaluations.push(QuadFelt::new(word[0], word[1]));
            evaluations.push(QuadFelt::new(word[2], word[3]));
            next = next + 1;
            assert(evaluations@ =~= evaluations_at(
                self.memory@,
                self.system.ctx,
                start as int,
                (2 * (next - start)) as nat,
            ));
        }
        Ok(evaluations)
    }

    /// Pushes the first `output_size` coefficients of a polynomial onto the advice stack, the
    /// constant one on top, each with its first coordinate on top.
    pub fn push_coefficients(&mut self, poly: &Vec<QuadFelt>, output_size: usize) -> (result:
        Result<(), ExecutionError>)
        requires
            output_size <= poly@.len(),
        ensures
            final(self).same_machine(old(self)),
            ({
                let (before, after) = (old(self).advice(), final(self).advice());
                let values = base_elements(poly@.take(output_size as int));
                &&& (after, result) == push_run::<A>(before, value_sources(values.reverse()))
                &&& result is Ok ==> after == before.with_stack(values + before.stack)
                &&& accepts_values::<A>() ==> result is Ok
            }),
    {
        let ghost wanted = base_elements(poly@.take(output_size as int));
        let mut values: Vec<Felt> = Vec::new();
        let mut j: usize = output_size;
        while j > 0
            invariant
                j <= output_size <= poly@.len(),
                wanted == base_elements(poly@.take(output_size as int)),
                values@ == wanted.skip(2 * j).reverse(),
            decreases j,
        {
            j = j - 1;
            values.push(poly[j].a1);
            values.push(poly[j].a0);
            assert(values@ =~= wanted.skip(2 * j).reverse());
        }
        assert(wanted.skip(0) =~= wanted);
        assert(wanted.reverse().reverse() =~= wanted);
        self.push_values(values)
    }

    /// Interpolates evaluations that lie in memory, and pushes coefficients of the polynomial onto
    /// the advice stack.
    ///
    /// The operand stack holds [output_size, input_size, input_start_ptr, ...]: how many
    /// coefficients are wanted, how many evaluations there are, and the address of the first of
    /// them. Evaluations and coefficients are elements of the extension field; a word of memory
    /// holds two evaluations. The coefficients of lowest degree end up on top.
    ///
    /// Fails if
    /// - the number of evaluations is not a power of two greater than one, or does not fit in 32
    ///   bits,
    /// - the address of the first evaluation, or the one after the last, is greater than 2^32,
    /// - one of the evaluations has not been written,
    /// - no coefficients are wanted, or more than there are evaluations.
    pub fn push_ext2_intt_result(&mut self) -> (result: Result<(), ExecutionError>)
        ensures
            final(self).same_machine(old(self)),
            ({
                let (before, after) = (old(self).advice(), final(self).advice());
                let (memory, ctx) = (old(self).memory@, old(self).system.ctx);
                let output_size = old(self).stack@[0].value as usize;
                let input_size = old(self).stack@[1].value as usize;
                let start = old(self).stack@[2].value;
                let end = start + input_size / 2;
                let evaluations = evaluations_at(memory, ctx, start as int, input_size as nat);
                match request_error(output_size, input_size, start) {
                    Some(error) => {
                        &&& result == Err::<(), _>(ExecutionError::Ext2InttError(error))
                        &&& after == before
                    },
                    None => {
                        &&& forall|addr: u32| #[trigger]
                            first_unwritten(memory, ctx, start as int, end, addr) ==> {
                                &&& result == Err::<(), _>(
                                    ExecutionError::Ext2InttError(
                                        Ext2InttError::UninitializedMemoryAddress(addr),
                                    ),
                                )
                                &&& after == before
                            }
                        &&& all_written(memory, ctx, start as int, end)
                            ==> exists|poly: Seq<QuadFelt>|
                            {
                                let values = base_elements(poly.take(output_size as int));
                                &&& #[trigger] interpolates(poly, evaluations)
                                &&& (after, result) == push_run::<A>(
                                    before,
                                    value_sources(values.reverse()),
                                )
                                &&& result is Ok ==> after == before.with_stack(
                                    values + before.stack,
                                )
                                &&& accepts_values::<A>() ==> result is Ok
                            }
                        &&& all_written(memory, ctx, start as int, end) && result is Ok
                            && output_size == input_size ==> forall|log: nat, k: int|
                            #![trigger pow2(log), memory[(ctx, (start + k) as u32)]]
                            input_size == pow2(log) && 0 <= k && 2 * k < input_size ==> {
                                let word = memory[(ctx, (start + k) as u32)];
                                let (g, p) = (root_of_unity(log), 0xFFFF_FFFF_0000_0001int);
                                let (c0, c1) = (
                                    Seq::new(
                                        input_size as nat,
                                        |j: int| after.stack[2 * j].value as int,
                                    ),
                                    Seq::new(
                                        input_size as nat,
                                        |j: int| after.stack[2 * j + 1].value as int,
                                    ),
                                );
                                let (x, y) = (pow(g, (2 * k) as nat), pow(g, (2 * k + 1) as nat));
                                &&& poly_eval(c0, x) % p == word[0].value as int % p
                                &&& poly_eval(c1, x) % p == word[1].value as int % p
                                &&& poly_eval(c0, y) % p == word[2].value as int % p
                                &&& poly_eval(c1, y) % p == word[3].value as int % p
                            }
                    },
                }
            }),
    {
        let output_size: usize = self.stack.get(0).as_int() as usize;
        let input_size: usize = self.stack.get(1).as_int() as usize;
        let start: u64 = self.stack.get(2).as_int();
        match check_request(output_size, input_size, start) {
            Ok(()) => {},
            Err(error) => return Err(ExecutionError::from(error)),
        }
        let end: u64 = start + (input_size / 2) as u64;
        proof {
            lemma_domain_size(input_size as nat);
        }
        let mut poly = match self.read_evaluations(start, end) {
            Ok(evaluations) => evaluations,
            Err(error) => {
                return Err(ExecutionError::from(error));
            },
        };
        let ghost evaluations = poly@;
        let twiddles = get_inv_twiddles(input_size);
        interpolate_poly(&mut poly, &twiddles);
        assert(interpolates(poly@, evaluations));
        let result = self.push_coefficients(&poly, output_size);
        proof {
            let (memory, ctx) = (old(self).memory@, old(self).system.ctx);
            let (before, after) = (old(self).advice().stack, self.advice().stack);
            if result is Ok && output_size == input_size {
                assert forall|log: nat, k: int|
                    #![trigger pow2(log), memory[(ctx, (start + k) as u32)]]
                    input_size == pow2(log) && 0 <= k && 2 * k < input_size implies {
                    let word = memory[(ctx, (start + k) as u32)];
                    let (g, p) = (root_of_unity(log), 0xFFFF_FFFF_0000_0001int);
                    let (c0, c1) = (
                        Seq::new(input_size as nat, |j: int| after[2 * j].value as int),
                        Seq::new(input_size as nat, |j: int| after[2 * j + 1].value as int),
                    );
                    let (x, y) = (pow(g, (2 * k) as nat), pow(g, (2 * k + 1) as nat));
                    &&& poly_eval(c0, x) % p == word[0].value as int % p
                    &&& poly_eval(c1, x) % p == word[1].value as int % p
                    &&& poly_eval(c0, y) % p == word[2].value as int % p
                    &&& poly_eval(c1, y) % p == word[3].value as int % p
                } by {
                    lemma_log_of_size(input_size as nat, log);
                    law_interpolated_memory(
                        poly@,
                        memory,
                        ctx,
                        start as int,
                        log,
                        input_size as nat,
                        before,
                    );
                    let (c0, c1) = (
                        Seq::new(input_size as nat, |j: int| poly@[j].a0.value as int),
                        Seq::new(input_size as nat, |j: int| poly@[j].a1.value as int),
                    );
                    assert(c0 =~= Seq::new(input_size as nat, |j: int| after[2 * j].value as int));
                    assert(c1 =~= Seq::new(
                        input_size as nat,
                        |j: int| after[2 * j + 1].value as int,
                    ));
                }
            }
        }
        result
    }
}

} // verus!
