//! SHA-1 digests of strings, used to derive identifiers from outside data.
use vstd::prelude::*;
use vstd::string::StringExecFns;

verus! {

/// Digest length in bytes.
pub const KEY_SIZE_BYTES: usize = 20;

/// Light wrapper over a SHA-1 digest.
#[derive(Debug, Clone, Copy)]
pub struct Sha1Hash {
    pub raw: [u8; KEY_SIZE_BYTES],
}

/// The SHA-1 digest of a string's UTF-8 bytes.
pub uninterp spec fn sha1_of(s: Seq<char>) -> Seq<u8>;

/// Lower-case hexadecimal digit of a value below 16.
pub open spec fn hex_digit(n: u8) -> char {
    if n < 10 {
        ((n + 48) as u8) as char
    } else {
        ((n + 87) as u8) as char
    }
}

/// Lower-case hexadecimal form of a byte, without leading zero.
pub open spec fn byte_hex(b: u8) -> Seq<char> {
    if b < 16 {
        seq![hex_digit(b)]
    } else {
        seq![hex_digit(b / 16), hex_digit(b % 16)]
    }
}

/// The bytes' hexadecimal forms, one after the other.
pub open spec fn bytes_hex(s: Seq<u8>) -> Seq<char>
    decreases s.len(),
{
    if s.len() == 0 {
        Seq::empty()
    } else {
        bytes_hex(s.drop_last()) + byte_hex(s.last())
    }
}

/// Relies on rust-crypto's `Sha1` (`input_str`, then `result`): the 20-byte
/// SHA-1 digest of the string's bytes.
#[verifier::external_body]
fn sha1_digest(s: &str) -> (r: [u8; KEY_SIZE_BYTES])
    ensures
        r@ == sha1_of(s@),
{
    let mut generator = crypto::sha1::Sha1::new();
    let mut raw = [0u8; KEY_SIZE_BYTES];
    crypto::digest::Digest::input_str(&mut generator, s);
    crypto::digest::Digest::result(&mut generator, &mut raw);
    raw
}

/// One hexadecimal digit as a string.
fn digit_str(n: u8) -> (r: &'static str)
    requires
        n < 16,
    ensures
        r@ == seq![hex_digit(n)],
{
    match n {
        0 => { proof { reveal_strlit("0"); } "0" },
        1 => { proof { reveal_strlit("1"); } "1" },
        2 => { proof { reveal_strlit("2"); } "2" },
        3 => { proof { reveal_strlit("3"); } "3" },
        4 => { proof { reveal_strlit("4"); } "4" },
        5 => { proof { reveal_strlit("5"); } "5" },
        6 => { proof { reveal_strlit("6"); } "6" },
        7 => { proof { reveal_strlit("7"); } "7" },
        8 => { proof { reveal_strlit("8"); } "8" },
        9 => { proof { reveal_strlit("9"); } "9" },
        10 => { proof { reveal_strlit("a"); } "a" },
        11 => { proof { reveal_strlit("b"); } "b" },
        12 => { proof { reveal_strlit("c"); } "c" },
        13 => { proof { reveal_strlit("d"); } "d" },
        14 => { proof { reveal_strlit("e"); } "e" },
        _ => { proof { reveal_strlit("f"); } "f" },
    }
}

impl Sha1Hash {
    /// An all-zero digest.
    pub fn new() -> (r: Sha1Hash)
        ensures
            forall|k: int| 0 <= k < KEY_SIZE_BYTES ==> #[trigger] r.raw@[k] == 0u8,
    {
        Sha1Hash { raw: [0u8; KEY_SIZE_BYTES] }
    }

    /// The SHA-1 digest of a string.
    pub fn from_string(s: &str) -> (r: Sha1Hash)
        ensures
            r.raw@ == sha1_of(s@),
    {
        Sha1Hash { raw: sha1_digest(s) }
    }

    /// The digest's bytes in lower-case hexadecimal, each without leading
    /// zero.
    pub fn to_string(&self) -> (r: String)
        ensures
            r@ == bytes_hex(self.raw@),
    {
        let mut out = String::new();
        let mut i: usize = 0;
        proof {
            assert(self.raw@.take(0) =~= Seq::<u8>::empty());
        }
        while i < KEY_SIZE_BYTES
            invariant
                i <= KEY_SIZE_BYTES,
                out@ == bytes_hex(self.raw@.take(i as int)),
            decreases KEY_SIZE_BYTES - i,
        {
            let b = self.raw[i];
            proof {
                assert(self.raw@.take(i + 1).drop_last() =~= self.raw@.take(i as int));
                assert(self.raw@.take(i + 1).last() == b);
            }
            if b >= 16 {
                out.append(digit_str(b / 16));
                out.append(digit_str(b % 16));
                proof {
                    assert(out@ =~= bytes_hex(self.raw@.take(i as int)) + byte_hex(b));
                }
            } else {
                out.append(digit_str(b));
            }
            i += 1;
        }
        proof {
            assert(self.raw@.take(KEY_SIZE_BYTES as int) =~= self.raw@);
        }
        out
    }
}

} // verus!
