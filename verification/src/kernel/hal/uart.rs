//! The console UART's text path: the bytes put on the wire for a text,
//! each newline preceded by a carriage return.  The register writes that
//! send them belong to the board.
use vstd::prelude::*;

verus! {

/// The wire bytes of some text bytes: a '\r' goes before every '\n'.
pub open spec fn crlf_spec(b: Seq<u8>) -> Seq<u8>
    decreases b.len(),
{
    if b.len() == 0 {
        Seq::empty()
    } else if b.last() == 10 {
        crlf_spec(b.drop_last()) + seq![13u8, 10u8]
    } else {
        crlf_spec(b.drop_last()) + seq![b.last()]
    }
}

/// Both UART models come up usable: nothing to set up.
pub fn init() {
}

/// The bytes the UART sends for a text, in order.
pub fn write_str(s: &str) -> (out: Vec<u8>)
    ensures
        out@ == crlf_spec(vstd::utf8::encode_utf8(s@)),
{
    let b = s.as_bytes();
    let mut out: Vec<u8> = Vec::new();
    let mut i: usize = 0;
    while i < b.len()
        invariant
            i <= b@.len(),
            out@ == crlf_spec(b@.take(i as int)),
        decreases b@.len() - i,
    {
        proof {
            assert(b@.take(i + 1).drop_last() =~= b@.take(i as int));
        }
        if b[i] == 10u8 {
            out.push(13u8);
        }
        out.push(b[i]);
        proof {
            assert(out@ =~= crlf_spec(b@.take(i + 1)));
        }
        i += 1;
    }
    proof {
        assert(b@.take(b@.len() as int) =~= b@);
    }
    out
}

/// The console writer (its `core::fmt::Write` side sends `write_str`'s
/// bytes).
pub struct UartWriter;

} // verus!
