//! CBOR data items as this library writes and reads them, and the calls
//! into minicbor that produce and consume them.
use vstd::prelude::*;

verus! {

/// The shortest head of a data item of major type `major` with argument `n`,
/// for arguments below 2^32.
pub open spec fn head(major: nat, n: nat) -> Seq<u8> {
    let t = major * 32;
    if n < 24 {
        seq![(t + n) as u8]
    } else if n < 0x100 {
        seq![(t + 24) as u8, n as u8]
    } else if n < 0x10000 {
        seq![(t + 25) as u8, (n / 0x100) as u8, (n % 0x100) as u8]
    } else {
        seq![
            (t + 26) as u8,
            (n / 0x1000000) as u8,
            ((n / 0x10000) % 0x100) as u8,
            ((n / 0x100) % 0x100) as u8,
            (n % 0x100) as u8,
        ]
    }
}

/// The encoding of a boolean.
pub open spec fn bool_item(x: bool) -> Seq<u8> {
    if x {
        seq![0xf5u8]
    } else {
        seq![0xf4u8]
    }
}

/// The encoding of null.
pub open spec fn null_item() -> Seq<u8> {
    seq![0xf6u8]
}

/// Big-endian value of the `k` bytes of `b` that start at `p`.
pub open spec fn be_value(b: Seq<u8>, p: int, k: nat) -> nat
    decreases k,
{
    if k == 0 {
        0
    } else {
        be_value(b, p, (k - 1) as nat) * 256 + b[p + k - 1] as nat
    }
}

/// The argument of the head that starts at `p`, and where the head ends.
pub open spec fn arg_at(b: Seq<u8>, p: int) -> Option<(nat, int)> {
    if p < 0 || p >= b.len() {
        None
    } else {
        let info = b[p] % 32;
        if info < 24 {
            Some((info as nat, p + 1))
        } else if info == 24 && p + 2 <= b.len() {
            Some((be_value(b, p + 1, 1), p + 2))
        } else if info == 25 && p + 3 <= b.len() {
            Some((be_value(b, p + 1, 2), p + 3))
        } else if info == 26 && p + 5 <= b.len() {
            Some((be_value(b, p + 1, 4), p + 5))
        } else if info == 27 && p + 9 <= b.len() {
            Some((be_value(b, p + 1, 8), p + 9))
        } else {
            None
        }
    }
}

/// An unsigned integer no larger than `max` at `p`, in any of its head forms,
/// and where it ends.
pub open spec fn uint_at(b: Seq<u8>, p: int, max: nat) -> Option<(nat, int)> {
    if 0 <= p < b.len() && b[p] / 32 == 0 {
        match arg_at(b, p) {
            Some((n, q)) => if n <= max {
                Some((n, q))
            } else {
                None
            },
            None => None,
        }
    } else {
        None
    }
}

/// A boolean at `p`.
pub open spec fn bool_at(b: Seq<u8>, p: int) -> Option<bool> {
    if 0 <= p < b.len() && b[p] == 0xf5 {
        Some(true)
    } else if 0 <= p < b.len() && b[p] == 0xf4 {
        Some(false)
    } else {
        None
    }
}

/// Whether null stands at `p`.
pub open spec fn null_at(b: Seq<u8>, p: int) -> bool {
    0 <= p < b.len() && b[p] == 0xf6
}

/// The length of a definite-length array whose head starts at `p`, and where
/// the head ends.
pub open spec fn array_at(b: Seq<u8>, p: int) -> Option<(nat, int)> {
    if 0 <= p < b.len() && b[p] / 32 == 4 && b[p] % 32 != 31 {
        arg_at(b, p)
    } else {
        None
    }
}

/// A head written at `p` reads back as its argument, with its major type.
pub proof fn lemma_head_reads_back(b: Seq<u8>, p: int, major: nat, n: nat)
    requires
        major < 8,
        n < 0x1_0000_0000,
        0 <= p,
        p + head(major, n).len() <= b.len(),
        b.subrange(p, p + head(major, n).len()) == head(major, n),
    ensures
        arg_at(b, p) == Some((n, p + head(major, n).len())),
        b[p] / 32 == major,
        b[p] % 32 != 31,
{
    let h = head(major, n);
    let t = major * 32;
    assert(b[p] == h[0]);
    assert(t + 26 < 256) by (nonlinear_arith)
        requires
            major < 8,
            t == major * 32,
    ;
    if n < 24 {
        assert((t + n) % 32 == n && (t + n) / 32 == major) by (nonlinear_arith)
            requires
                t == major * 32,
                n < 24,
        ;
    } else {
        assert(b[p + 1] == h[1]);
        if n < 0x100 {
            assert((t + 24) % 32 == 24 && (t + 24) / 32 == major) by (nonlinear_arith)
                requires
                    t == major * 32,
            ;
            assert(be_value(b, p + 1, 1) == n) by {
                reveal_with_fuel(be_value, 2);
            }
        } else if n < 0x10000 {
            assert(b[p + 2] == h[2]);
            assert((t + 25) % 32 == 25 && (t + 25) / 32 == major) by (nonlinear_arith)
                requires
                    t == major * 32,
            ;
            assert((n / 0x100) * 256 + n % 0x100 == n) by (nonlinear_arith);
            assert(be_value(b, p + 1, 2) == n) by {
                reveal_with_fuel(be_value, 3);
            }
        } else {
            assert(b[p + 2] == h[2]);
            assert(b[p + 3] == h[3]);
            assert(b[p + 4] == h[4]);
            assert((t + 26) % 32 == 26 && (t + 26) / 32 == major) by (nonlinear_arith)
                requires
                    t == major * 32,
            ;
            let a = n / 0x1000000;
            let c = (n / 0x10000) % 0x100;
            let d = (n / 0x100) % 0x100;
            let e = n % 0x100;
            assert(a < 256);
            assert(((a * 256 + c) * 256 + d) * 256 + e == n) by (nonlinear_arith)
                requires
                    a == n / 0x1000000,
                    c == (n / 0x10000) % 0x100,
                    d == (n / 0x100) % 0x100,
                    e == n % 0x100,
            {
                assert(n / 0x100 == (n / 0x10000) * 256 + (n / 0x100) % 0x100);
                assert(n / 0x10000 == (n / 0x1000000) * 256 + (n / 0x10000) % 0x100);
            }
            assert(be_value(b, p + 1, 4) == n) by {
                reveal_with_fuel(be_value, 5);
            }
        }
    }
}

/// Where the data item that starts at `p` ends, if one well-formed item does.
pub uninterp spec fn skipped_to(b: Seq<u8>, p: int) -> Option<int>;

/// Relies on minicbor's `Encoder::u32`: it appends the shortest head of
/// major type 0.
#[verifier::external_body]
pub(crate) fn put_u32(buf: &mut Vec<u8>, x: u32)
    ensures
        final(buf)@ == old(buf)@ + head(0, x as nat),
{
    let _ = minicbor::Encoder::new(buf).u32(x);
}

/// Relies on minicbor's `Encoder::array`: it appends the shortest head of
/// major type 4.
#[verifier::external_body]
pub(crate) fn put_array(buf: &mut Vec<u8>, len: u32)
    ensures
        final(buf)@ == old(buf)@ + head(4, len as nat),
{
    let _ = minicbor::Encoder::new(buf).array(len as u64);
}

/// Relies on minicbor's `Encoder::bool`: it appends 0xf5 or 0xf4.
#[verifier::external_body]
pub(crate) fn put_bool(buf: &mut Vec<u8>, x: bool)
    ensures
        final(buf)@ == old(buf)@ + bool_item(x),
{
    let _ = minicbor::Encoder::new(buf).bool(x);
}

/// Relies on minicbor's `Encoder::null`: it appends 0xf6.
#[verifier::external_body]
pub(crate) fn put_null(buf: &mut Vec<u8>)
    ensures
        final(buf)@ == old(buf)@ + null_item(),
{
    let _ = minicbor::Encoder::new(buf).null();
}

/// Relies on minicbor's `Decoder::u32` at position `p`: an unsigned integer
/// in any head form, refused above `u32::MAX`.
#[verifier::external_body]
pub(crate) fn take_u32(b: &[u8], p: usize) -> (r: Option<(u32, usize)>)
    ensures
        match uint_at(b@, p as int, u32::MAX as nat) {
            Some((n, q)) => r matches Some((m, e)) && m as nat == n && e as int == q,
            None => r is None,
        },
{
    let mut d = minicbor::Decoder::new(b);
    d.set_position(p);
    match d.u32() {
        Ok(n) => Some((n, d.position())),
        Err(_) => None,
    }
}

/// Relies on minicbor's `Decoder::bool` at position `p`.
#[verifier::external_body]
pub(crate) fn take_bool(b: &[u8], p: usize) -> (r: Option<bool>)
    ensures
        r == bool_at(b@, p as int),
{
    let mut d = minicbor::Decoder::new(b);
    d.set_position(p);
    d.bool().ok()
}

/// Relies on minicbor's `Decoder::null` at position `p`.
#[verifier::external_body]
pub(crate) fn take_null(b: &[u8], p: usize) -> (r: bool)
    ensures
        r == null_at(b@, p as int),
{
    let mut d = minicbor::Decoder::new(b);
    d.set_position(p);
    d.null().is_ok()
}

/// Relies on minicbor's `Decoder::array` at position `p`; an array of
/// indefinite length gives `None`.
#[verifier::external_body]
pub(crate) fn take_array(b: &[u8], p: usize) -> (r: Option<(u64, usize)>)
    ensures
        match array_at(b@, p as int) {
            Some((n, q)) => r matches Some((m, e)) && m as nat == n && e as int == q,
            None => r is None,
        },
{
    let mut d = minicbor::Decoder::new(b);
    d.set_position(p);
    match d.array() {
        Ok(Some(n)) => Some((n, d.position())),
        Ok(None) => None,
        Err(_) => None,
    }
}

/// Relies on minicbor's `Decoder::skip` at position `p`: it steps over one
/// whole data item.
#[verifier::external_body]
pub(crate) fn take_any(b: &[u8], p: usize) -> (r: Option<usize>)
    ensures
        match r {
            Some(q) => skipped_to(b@, p as int) == Some(q as int),
            None => skipped_to(b@, p as int) is None,
        },
{
    let mut d = minicbor::Decoder::new(b);
    d.set_position(p);
    match d.skip() {
        Ok(()) => Some(d.position()),
        Err(_) => None,
    }
}

} // verus!
