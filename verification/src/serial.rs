//! The serial console, modeled by what it transmits. A line feed is
//! sent as carriage return plus line feed, exactly as the port driver
//! writes it; the port input/output instructions themselves belong to
//! the unverified edge.

use vstd::prelude::*;

verus! {

broadcast use vstd::slice::group_slice_axioms;

/// What the port transmits for a run of bytes: each byte as it is,
/// with a carriage return slipped in front of every line feed.
pub open spec fn serial_expansion(bytes: Seq<u8>) -> Seq<u8>
    decreases bytes.len(),
{
    if bytes.len() == 0 {
        Seq::empty()
    } else {
        let head: Seq<u8> = if bytes[0] == 0x0A {
            seq![0x0Du8, 0x0Au8]
        } else {
            seq![bytes[0]]
        };
        head + serial_expansion(bytes.skip(1))
    }
}

/// A serial port: its base address, whether it is enabled, and every
/// byte it has transmitted so far, in order.
pub struct SerialPort {
    address: u16,
    enabled: bool,
    transmitted: Vec<u8>,
}

impl SerialPort {
    /// The port's base address.
    pub closed spec fn spec_address(self) -> u16 {
        self.address
    }

    /// Whether writes go out.
    pub closed spec fn spec_enabled(self) -> bool {
        self.enabled
    }

    /// Everything transmitted so far.
    pub closed spec fn spec_transmitted(self) -> Seq<u8> {
        self.transmitted@
    }

    /// Everything transmitted so far, as a value.
    pub fn transmitted(&self) -> (r: &Vec<u8>)
        ensures
            r@ == self.spec_transmitted(),
    {
        &self.transmitted
    }

    /// Adopts an already initialized port at the given base address.
    pub fn from(address: u16) -> (r: SerialPort)
        ensures
            r.spec_address() == address,
            r.spec_enabled(),
            r.spec_transmitted() == Seq::<u8>::empty(),
    {
        SerialPort { address, enabled: true, transmitted: Vec::new() }
    }

    /// Transmits one byte, expanding a line feed to carriage return
    /// plus line feed.
    pub fn write_byte(&mut self, value: u8)
        ensures
            final(self).spec_address() == old(self).spec_address(),
            final(self).spec_enabled() == old(self).spec_enabled(),
            final(self).spec_transmitted() == old(self).spec_transmitted() + (if value == 0x0A {
                seq![0x0Du8, 0x0Au8]
            } else {
                seq![value]
            }),
    {
        if value == 0x0A {
            self.transmitted.push(0x0D);
        }
        self.transmitted.push(value);
        proof {
            if value == 0x0A {
                assert(self.transmitted@ =~= old(self).transmitted@ + seq![0x0Du8, 0x0Au8]);
            } else {
                assert(self.transmitted@ =~= old(self).transmitted@ + seq![value]);
            }
        }
    }

    /// Transmits a run of bytes when the port is enabled; a disabled
    /// port drops them.
    pub fn write(&mut self, value: &[u8])
        ensures
            final(self).spec_address() == old(self).spec_address(),
            final(self).spec_enabled() == old(self).spec_enabled(),
            old(self).spec_enabled() ==> final(self).spec_transmitted() == old(
                self,
            ).spec_transmitted() + serial_expansion(value@),
            !old(self).spec_enabled() ==> *final(self) == *old(self),
    {
        if self.enabled {
            let n = value.len();
            let mut i: usize = 0;
            while i < n
                invariant
                    n == value@.len() <= usize::MAX,
                    i <= n,
                    self.spec_address() == old(self).spec_address(),
                    self.spec_enabled() == old(self).spec_enabled(),
                    self.spec_transmitted() == old(self).spec_transmitted() + serial_expansion(
                        value@.take(i as int),
                    ),
                decreases n - i,
            {
                let b = value[i];
                self.write_byte(b);
                proof {
                    lemma_expansion_snoc(value@, i as int);
                }
                i = i + 1;
            }
            proof {
                assert(value@.take(n as int) =~= value@);
            }
        }
    }
}

/// Expanding one more byte appends that byte's expansion.
proof fn lemma_expansion_snoc(bytes: Seq<u8>, i: int)
    requires
        0 <= i < bytes.len(),
    ensures
        serial_expansion(bytes.take(i + 1)) == serial_expansion(bytes.take(i)) + (if bytes[i]
            == 0x0A {
            seq![0x0Du8, 0x0Au8]
        } else {
            seq![bytes[i]]
        }),
    decreases i,
{
    if i == 0 {
        assert(bytes.take(0) =~= Seq::<u8>::empty());
        assert(bytes.take(1).skip(1) =~= Seq::<u8>::empty());
        assert(bytes.take(1)[0] == bytes[0]);
        assert(serial_expansion(bytes.take(1)) =~= serial_expansion(bytes.take(0)) + (if bytes[0]
            == 0x0A {
            seq![0x0Du8, 0x0Au8]
        } else {
            seq![bytes[0]]
        }));
    } else {
        lemma_expansion_snoc(bytes.skip(1), i - 1);
        assert(bytes.take(i + 1).skip(1) =~= bytes.skip(1).take(i));
        assert(bytes.take(i).skip(1) =~= bytes.skip(1).take(i - 1));
        assert(bytes.take(i + 1)[0] == bytes[0]);
        assert(bytes.take(i)[0] == bytes[0]);
        let head: Seq<u8> = if bytes[0] == 0x0A {
            seq![0x0Du8, 0x0Au8]
        } else {
            seq![bytes[0]]
        };
        assert(serial_expansion(bytes.take(i + 1)) == head + serial_expansion(bytes.skip(1).take(i)));
        assert(serial_expansion(bytes.take(i)) == head + serial_expansion(bytes.skip(1).take(i - 1)));
        assert(bytes.skip(1)[i - 1] == bytes[i]);
        assert(serial_expansion(bytes.take(i + 1)) =~= serial_expansion(bytes.take(i)) + (if bytes[i]
            == 0x0A {
            seq![0x0Du8, 0x0Au8]
        } else {
            seq![bytes[i]]
        }));
    }
}

} // verus!
