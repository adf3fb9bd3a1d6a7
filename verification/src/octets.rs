//! Big-endian numbers and a reader over a run of octets.

use vstd::prelude::*;
use crate::error::DecodeError;

verus! {

/// The low `n` octets of `v`, most significant first.
pub open spec fn be_bytes(v: nat, n: nat) -> Seq<u8>
    decreases n,
{
    if n == 0 {
        Seq::empty()
    } else {
        be_bytes(v / 256, (n - 1) as nat).push((v % 256) as u8)
    }
}

/// The number that octets written most significant first stand for.
pub open spec fn be_value(s: Seq<u8>) -> nat
    decreases s.len(),
{
    if s.len() == 0 {
        0
    } else {
        be_value(s.drop_last()) * 256 + s.last() as nat
    }
}

/// How many numbers `n` octets can tell apart.
pub open spec fn be_limit(n: nat) -> nat
    decreases n,
{
    if n == 0 {
        1
    } else {
        256 * be_limit((n - 1) as nat)
    }
}

/// `n` octets hold `n` octets, whatever number is written.
pub proof fn lemma_be_bytes_len(v: nat, n: nat)
    ensures
        be_bytes(v, n).len() == n,
    decreases n,
{
    if n > 0 {
        lemma_be_bytes_len(v / 256, (n - 1) as nat);
    }
}

/// What octets stand for is below the limit of their count.
pub proof fn lemma_be_value_bound(s: Seq<u8>)
    ensures
        be_value(s) < be_limit(s.len()),
    decreases s.len(),
{
    if s.len() > 0 {
        lemma_be_value_bound(s.drop_last());
    }
}

/// The limits of the widths in use.
pub proof fn lemma_be_limits()
    ensures
        be_limit(1) == 0x100,
        be_limit(2) == 0x1_0000,
        be_limit(4) == 0x1_0000_0000,
        be_limit(8) == 0x1_0000_0000_0000_0000,
        be_limit(16) == 0x1_0000_0000_0000_0000_0000_0000_0000_0000,
{
    reveal_with_fuel(be_limit, 17);
}

/// A wider field can tell apart at least as many numbers.
pub proof fn lemma_be_limit_grows(m: nat, n: nat)
    requires
        m <= n,
    ensures
        be_limit(m) <= be_limit(n),
        0 < be_limit(m),
    decreases n,
{
    if m < n {
        lemma_be_limit_grows(m, (n - 1) as nat);
    } else if n > 0 {
        lemma_be_limit_grows((m - 1) as nat, (n - 1) as nat);
    }
}

/// Reading a number back from the octets it was written to gives the number, if it fits.
pub proof fn lemma_be_value_of_bytes(v: nat, n: nat)
    requires
        v < be_limit(n),
    ensures
        be_value(be_bytes(v, n)) == v,
    decreases n,
{
    if n > 0 {
        let head = be_bytes(v / 256, (n - 1) as nat);
        lemma_be_value_of_bytes(v / 256, (n - 1) as nat);
        assert(be_bytes(v, n).drop_last() =~= head);
    }
}

/// Takes a big-endian number of `n` octets off the front of `s`.
pub open spec fn take_be(s: Seq<u8>, n: nat) -> Result<(nat, Seq<u8>), DecodeError> {
    if s.len() < n {
        Err(DecodeError::TooShort)
    } else {
        Ok((be_value(s.take(n as int)), s.skip(n as int)))
    }
}

/// Nothing may be left over.
pub open spec fn at_end(s: Seq<u8>) -> Result<(), DecodeError> {
    if s.len() == 0 {
        Ok(())
    } else {
        Err(DecodeError::TooLong)
    }
}

/// A number written in `n` octets is taken off again, and what follows it stays.
pub proof fn lemma_take_be(v: nat, n: nat, tail: Seq<u8>)
    requires
        v < be_limit(n),
    ensures
        take_be(be_bytes(v, n) + tail, n) == Ok::<_, DecodeError>((v, tail)),
{
    lemma_be_bytes_len(v, n);
    lemma_be_value_of_bytes(v, n);
    assert((be_bytes(v, n) + tail).take(n as int) =~= be_bytes(v, n));
    assert((be_bytes(v, n) + tail).skip(n as int) =~= tail);
}

/// Appends the low `n` octets of `v`, most significant first.
pub fn write_be(out: &mut Vec<u8>, v: u128, n: usize)
    ensures
        final(out)@ == old(out)@ + be_bytes(v as nat, n as nat),
    decreases n,
{
    if n > 0 {
        write_be(out, v / 256, n - 1);
        out.push((v % 256) as u8);
    }
    proof {
        assert(out@ =~= old(out)@ + be_bytes(v as nat, n as nat));
    }
}

/// A place in a run of octets, from which values are read one after the other.
pub struct Reader<'a> {
    input: &'a [u8],
    pos: usize,
}

impl<'a> Reader<'a> {
    /// The place lies within the input.
    #[verifier::type_invariant]
    closed spec fn well_formed(self) -> bool {
        self.pos <= self.input@.len()
    }

    /// What has not been read yet.
    pub closed spec fn rest(self) -> Seq<u8> {
        self.input@.skip(self.pos as int)
    }

    /// A reader at the start of `input`.
    pub fn new(input: &'a [u8]) -> (r: Reader<'a>)
        ensures
            r.rest() == input@,
    {
        let r = Reader { input, pos: 0 };
        assert(r.rest() =~= input@);
        r
    }

    /// The number of octets that have not been read yet.
    pub fn remaining(&self) -> (n: usize)
        ensures
            n == self.rest().len(),
    {
        proof {
            use_type_invariant(self);
        }
        self.input.len() - self.pos
    }

    /// Reads a big-endian number of `n` octets.
    pub fn read_be(&mut self, n: usize) -> (r: Result<u128, DecodeError>)
        requires
            n <= 16,
        ensures
            match take_be(old(self).rest(), n as nat) {
                Ok((v, rest)) => r == Ok::<u128, DecodeError>(v as u128) && v < be_limit(n as nat)
                    && v <= u128::MAX && final(self).rest() == rest,
                Err(e) => r == Err::<u128, DecodeError>(e) && final(self).rest()
                    == old(self).rest(),
            },
    {
        proof {
            use_type_invariant(&*self);
        }
        if self.remaining() < n {
            return Err(DecodeError::TooShort);
        }
        let total: usize = self.input.len();
        let ghost s = self.rest();
        let mut v: u128 = 0;
        let mut i: usize = 0;
        while i < n
            invariant
                i <= n <= 16,
                self.pos + n <= total,
                total == self.input@.len(),
                *self == *old(self),
                s == self.rest(),
                v == be_value(s.take(i as int)),
            decreases n - i,
        {
            proof {
                lemma_be_value_bound(s.take(i as int));
                lemma_be_limit_grows((i + 1) as nat, 16);
                lemma_be_limits();
                assert(s.take(i + 1).drop_last() =~= s.take(i as int));
                assert(s.take(i + 1).last() == s[i as int]);
            }
            v = v * 256 + self.input[self.pos + i] as u128;
            i = i + 1;
        }
        self.pos = self.pos + n;
        proof {
            lemma_be_value_bound(s.take(n as int));
            assert(self.rest() =~= s.skip(n as int));
        }
        Ok(v)
    }

    /// Reads `n` octets as they stand.
    pub fn read_slice(&mut self, n: usize) -> (r: Result<&'a [u8], DecodeError>)
        ensures
            match r {
                Ok(octets) => n <= old(self).rest().len() && octets@ == old(self).rest().take(
                    n as int,
                )
                    && final(self).rest() == old(self).rest().skip(n as int),
                Err(e) => old(self).rest().len() < n && e == DecodeError::TooShort && final(self).rest()
                    == old(self).rest(),
            },
    {
        proof {
            use_type_invariant(&*self);
        }
        if self.remaining() < n {
            return Err(DecodeError::TooShort);
        }
        let total: usize = self.input.len();
        assert(self.pos + n <= total);
        let end: usize = self.pos + n;
        let octets = vstd::slice::slice_subrange(self.input, self.pos, end);
        let ghost s = self.rest();
        self.pos = end;
        proof {
            assert(octets@ =~= s.take(n as int));
            assert(self.rest() =~= s.skip(n as int));
        }
        Ok(octets)
    }

    /// Checks that everything has been read.
    pub fn finish(&self) -> (r: Result<(), DecodeError>)
        ensures
            r == at_end(self.rest()),
    {
        if self.remaining() == 0 {
            Ok(())
        } else {
            Err(DecodeError::TooLong)
        }
    }
}

} // verus!
