use vstd::prelude::*;
use vstd::string::StringExecFns;

verus! {

/// The decimal digit for `d`.
pub open spec fn digit_char(d: nat) -> char {
    if d == 0 {
        '0'
    } else if d == 1 {
        '1'
    } else if d == 2 {
        '2'
    } else if d == 3 {
        '3'
    } else if d == 4 {
        '4'
    } else if d == 5 {
        '5'
    } else if d == 6 {
        '6'
    } else if d == 7 {
        '7'
    } else if d == 8 {
        '8'
    } else {
        '9'
    }
}

/// `n` written in decimal, without leading zeros.
pub open spec fn decimal(n: nat) -> Seq<char>
    decreases n,
{
    if n < 10 {
        seq![digit_char(n)]
    } else {
        decimal(n / 10).push(digit_char(n % 10))
    }
}

/// The decimal forms of `items`, separated by single spaces.
pub open spec fn spaced_decimals(items: Seq<u8>) -> Seq<char>
    decreases items.len(),
{
    if items.len() == 0 {
        Seq::empty()
    } else if items.len() == 1 {
        decimal(items[0] as nat)
    } else {
        spaced_decimals(items.drop_last()) + seq![' '] + decimal(items.last() as nat)
    }
}

/// The big-endian number spelled by `bytes`.
pub open spec fn be_value(bytes: Seq<u8>) -> nat
    decreases bytes.len(),
{
    if bytes.len() == 0 {
        0
    } else {
        be_value(bytes.drop_last()) * 256 + bytes.last() as nat
    }
}

/// Comparison and text for vectors.
pub trait VecExt<T> {
    /// The elements of the vector.
    spec fn items(&self) -> Seq<T>;

    /// Checks if both vectors contain the same elements.
    /// Returns true if they're equal
    fn verify_elements(&self, vec2: &Vec<T>) -> (r: bool)
        ensures
            r == (self.items() == vec2@),
    ;

    /// Returns each element, seperated by a space, in a String
    fn to_string(&self) -> String;
}

/// Reading numbers out of byte vectors.
pub trait VecExtU8 {
    /// The bytes of the vector.
    spec fn bytes(&self) -> Seq<u8>;

    /// Converts a vector of a single u8 to a u8
    fn to_u8(&self) -> (r: u8)
        requires
            self.bytes().len() == 1,
        ensures
            r == self.bytes()[0],
    ;

    /// Converts a vector of 2 * u8 to a u16, most significant byte first
    fn to_u16(&self) -> (r: u16)
        requires
            self.bytes().len() == 2,
        ensures
            r as nat == be_value(self.bytes()),
    ;

    /// Converts a vector of 4 * u8 to a u32, most significant byte first
    fn to_u32(&self) -> (r: u32)
        requires
            self.bytes().len() == 4,
        ensures
            r as nat == be_value(self.bytes()),
    ;
}

/// The one-character text of the digit `d`.
fn digit_str(d: u8) -> (r: &'static str)
    requires
        d < 10,
    ensures
        r@ == seq![digit_char(d as nat)],
{
    proof {
        reveal_strlit("0");
        reveal_strlit("1");
        reveal_strlit("2");
        reveal_strlit("3");
        reveal_strlit("4");
        reveal_strlit("5");
        reveal_strlit("6");
        reveal_strlit("7");
        reveal_strlit("8");
        reveal_strlit("9");
    }
    match d {
        0 => "0",
        1 => "1",
        2 => "2",
        3 => "3",
        4 => "4",
        5 => "5",
        6 => "6",
        7 => "7",
        8 => "8",
        _ => "9",
    }
}

/// Appends `n` in decimal to `out`.
fn append_decimal(out: &mut String, n: u8)
    ensures
        final(out)@ == old(out)@ + decimal(n as nat),
{
    if n >= 100 {
        out.append(digit_str(n / 100));
        out.append(digit_str((n / 10) % 10));
        out.append(digit_str(n % 10));
        proof {
            let m = n as nat;
            assert(decimal(m / 100) == seq![digit_char(m / 100)]);
            assert((m / 10) / 10 == m / 100);
            assert(decimal(m / 10) == decimal(m / 100).push(digit_char((m / 10) % 10)));
        }
    } else if n >= 10 {
        out.append(digit_str(n / 10));
        out.append(digit_str(n % 10));
    } else {
        out.append(digit_str(n));
    }
    proof {
        reveal_with_fuel(decimal, 3);
        assert(final(out)@ =~= old(out)@ + decimal(n as nat));
    }
}

impl VecExt<u8> for Vec<u8> {
    open spec fn items(&self) -> Seq<u8> {
        self@
    }

    fn verify_elements(&self, vec2: &Vec<u8>) -> (r: bool) {
        if self.len() != vec2.len() {
            return false;
        }
        let mut i: usize = 0;
        while i < self.len()
            invariant
                self@.len() == vec2@.len(),
                i <= self@.len(),
                forall|k: int| 0 <= k < i ==> self@[k] == vec2@[k],
            decreases self@.len() - i,
        {
            if self[i] != vec2[i] {
                return false;
            }
            i = i + 1;
        }
        proof {
            assert(self@ =~= vec2@);
        }
        true
    }

    fn to_string(&self) -> (r: String)
        ensures
            r@ == spaced_decimals(self@),
    {
        let mut out = String::new();
        let mut i: usize = 0;
        proof {
            reveal_strlit(" ");
            assert(self@.subrange(0, 0) =~= Seq::<u8>::empty());
        }
        while i < self.len()
            invariant
                i <= self@.len(),
                out@ == spaced_decimals(self@.subrange(0, i as int)),
            decreases self@.len() - i,
        {
            let ghost prefix = self@.subrange(0, i as int + 1);
            proof {
                assert(prefix.drop_last() =~= self@.subrange(0, i as int));
            }
            let ghost before = out@;
            if i > 0 {
                out.append(" ");
            }
            let ghost spaced = out@;
            append_decimal(&mut out, self[i]);
            proof {
                reveal_strlit(" ");
                if i == 0 {
                    assert(prefix.len() == 1);
                    assert(prefix[0] == self@[0]);
                } else {
                    assert(spaced == before + seq![' ']);
                    assert(prefix.last() == self@[i as int]);
                    assert(spaced_decimals(prefix) == spaced_decimals(prefix.drop_last()) + seq![' '] + decimal(prefix.last() as nat));
                }
                assert(out@ =~= spaced_decimals(prefix));
            }
            i = i + 1;
        }
        proof {
            assert(self@.subrange(0, i as int) =~= self@);
        }
        out
    }
}

impl VecExtU8 for Vec<u8> {
    open spec fn bytes(&self) -> Seq<u8> {
        self@
    }

    fn to_u8(&self) -> (r: u8) {
        self[0]
    }

    fn to_u16(&self) -> (r: u16) {
        let hi = self[0] as u16;
        let lo = self[1] as u16;
        proof {
            let b = self@;
            reveal_with_fuel(be_value, 3);
            assert(b.drop_last().drop_last() =~= Seq::<u8>::empty());
            assert(be_value(b.drop_last()) == b[0] as nat);
        }
        hi * 256 + lo
    }

    fn to_u32(&self) -> (r: u32) {
        let b0 = self[0] as u32;
        let b1 = self[1] as u32;
        let b2 = self[2] as u32;
        let b3 = self[3] as u32;
        proof {
            let b = self@;
            reveal_with_fuel(be_value, 5);
            let b3s = b.drop_last();
            let b2s = b3s.drop_last();
            let b1s = b2s.drop_last();
            assert(b1s.drop_last() =~= Seq::<u8>::empty());
            assert(be_value(b1s) == b[0] as nat);
            assert(be_value(b2s) == b[0] as nat * 256 + b[1] as nat);
            assert(be_value(b3s) == (b[0] as nat * 256 + b[1] as nat) * 256 + b[2] as nat);
        }
        ((b0 * 256 + b1) * 256 + b2) * 256 + b3
    }
}

} // verus!
